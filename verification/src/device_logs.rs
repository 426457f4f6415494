//! Fixed-size circular buffer for device log lines: a ring of slots with a
//! monotonically increasing write id. Writing overwrites the oldest slot;
//! reading produces the valid slots in write order.

use vstd::prelude::*;

verus! {

/// The number of slots in the ring.
pub const LOG_ENTRIES: usize = 256;

/// One log slot: a line of text and the write id that stored it, or id 0
/// for a slot never written.
pub struct LogEntry {
    pub data: String,
    pub id: u64,
}

/// The ring of log slots and the id the next write will use.
pub struct DeviceLogs {
    ring: Vec<LogEntry>,
    write_id: u64,
}

/// The lines the ring yields in write order: walking the slots from the one
/// the next write will take, every slot holding a valid id contributes its
/// line.
pub open spec fn spec_logs(ring: Seq<LogEntry>, start: u64, n: nat) -> Seq<Seq<char>>
    decreases n,
{
    if n == 0 {
        Seq::empty()
    } else {
        let prev = spec_logs(ring, start, (n - 1) as nat);
        let idx = (start + n - 1) % (LOG_ENTRIES as int);
        if ring[idx].id > 0 {
            prev.push(ring[idx].data@)
        } else {
            prev
        }
    }
}

/// A ring whose slots are all unwritten yields no lines.
proof fn lemma_spec_logs_empty(ring: Seq<LogEntry>, start: u64, n: nat)
    requires
        forall|s: int| #![trigger ring[s]] 0 <= s < ring.len() ==> ring[s].id == 0,
        ring.len() == LOG_ENTRIES,
    ensures
        spec_logs(ring, start, n) == Seq::<Seq<char>>::empty(),
    decreases n,
{
    if n > 0 {
        lemma_spec_logs_empty(ring, start, (n - 1) as nat);
        vstd::arithmetic::div_mod::lemma_mod_bound(start + n - 1, LOG_ENTRIES as int);
    }
}

impl DeviceLogs {
    /// The ring is full-sized, ids grow monotonically, and each slot holds
    /// either no entry yet or one of the last ring-full of write ids, at the
    /// slot its id selects.
    pub closed spec fn wf(self) -> bool {
        &&& self.ring@.len() == LOG_ENTRIES
        &&& 1 <= self.write_id
        &&& forall|s: int| #![trigger self.ring@[s]]
            0 <= s < LOG_ENTRIES ==> (self.ring@[s].id == 0 || (self.ring@[s].id % (
            LOG_ENTRIES as u64) == s && self.ring@[s].id < self.write_id && self.write_id
                <= self.ring@[s].id + LOG_ENTRIES))
    }

    /// The id the next write will use.
    pub closed spec fn next_id(self) -> u64 {
        self.write_id
    }

    /// An empty ring: all slots unwritten, ids starting at 1.
    pub fn new() -> (r: DeviceLogs)
        ensures
            r.wf(),
            r.next_id() == 1,
            forall|s: int| #![trigger r.slot(s)] 0 <= s < LOG_ENTRIES ==> r.slot(s).id == 0,
            r.lines() == Seq::<Seq<char>>::empty(),
    {
        let mut ring: Vec<LogEntry> = Vec::new();
        let mut k: usize = 0;
        while k < LOG_ENTRIES
            invariant
                k <= LOG_ENTRIES,
                ring@.len() == k,
                forall|s: int| #![trigger ring@[s]] 0 <= s < k ==> ring@[s].id == 0,
            decreases LOG_ENTRIES - k,
        {
            ring.push(LogEntry { data: String::new(), id: 0 });
            k = k + 1;
        }
        let r = DeviceLogs { ring, write_id: 1 };
        proof {
            lemma_spec_logs_empty(r.ring@, 1, LOG_ENTRIES as nat);
        }
        r
    }

    /// The slot at index `s`.
    pub closed spec fn slot(self, s: int) -> LogEntry {
        self.ring@[s]
    }

    /// The lines the ring currently yields, in write order.
    pub closed spec fn lines(self) -> Seq<Seq<char>> {
        spec_logs(self.ring@, self.write_id, LOG_ENTRIES as nat)
    }

    /// Collects the stored lines in write order: oldest surviving line
    /// first, newest last.
    pub fn get_logs(&self) -> (r: Vec<String>)
        requires
            self.wf(),
            self.next_id() + LOG_ENTRIES <= u64::MAX,
        ensures
            r@.map_values(|s: String| s@) == self.lines(),
    {
        let mut res: Vec<String> = Vec::new();
        let mut k: usize = 0;
        while k < LOG_ENTRIES
            invariant
                k <= LOG_ENTRIES,
                self.wf(),
                self.write_id + LOG_ENTRIES <= u64::MAX,
                res@.map_values(|s: String| s@) == spec_logs(
                    self.ring@,
                    self.write_id,
                    k as nat,
                ),
            decreases LOG_ENTRIES - k,
        {
            let i = self.write_id + k as u64;
            let idx = (i % (LOG_ENTRIES as u64)) as usize;
            proof {
                assert((i % (LOG_ENTRIES as u64)) as int == (self.write_id + (k + 1) - 1) % (
                LOG_ENTRIES as int));
            }
            let entry = &self.ring[idx];
            if entry.id > 0 {
                res.push(entry.data.clone());
                proof {
                    assert(res@.map_values(|s: String| s@) =~= res@.drop_last().map_values(
                        |s: String| s@,
                    ).push(res@.last()@));
                }
            }
            k = k + 1;
        }
        res
    }

    /// Stores a line under the next write id, overwriting the slot that id
    /// selects, and advances the id.
    pub fn add_log(&mut self, data: String)
        requires
            old(self).wf(),
            old(self).next_id() < u64::MAX,
        ensures
            final(self).wf(),
            final(self).next_id() == old(self).next_id() + 1,
            final(self).slot((old(self).next_id() % (LOG_ENTRIES as u64)) as int).data@ == data@,
            final(self).slot((old(self).next_id() % (LOG_ENTRIES as u64)) as int).id == old(
                self,
            ).next_id(),
            forall|s: int| #![trigger final(self).slot(s)]
                0 <= s < LOG_ENTRIES && s != (old(self).next_id() % (LOG_ENTRIES as u64)) as int
                    ==> final(self).slot(s) == old(self).slot(s),
    {
        let id = self.write_id;
        self.write_id = self.write_id + 1;
        let idx = (id % (LOG_ENTRIES as u64)) as usize;
        self.ring[idx] = LogEntry { data, id };
    }
}

} // verus!
