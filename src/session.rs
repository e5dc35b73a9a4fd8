//! One run of the cache around a command, as decisions from events to
//! actions. The caller performs each action (unpacking, running the command,
//! measuring, deleting and packing files) and reports its outcome as the next
//! event.
use vstd::prelude::*;
use crate::address::{CacheKey, archive_path};
use crate::inventory::{EntryMeta, Inventory, evicts_lru};

verus! {

/// Where a run stands.
#[derive(Clone, Copy, Debug, PartialEq, Eq, Structural)]
pub enum Phase {
    Start,
    Restoring,
    Running,
    Measuring,
    Removing,
    Packing,
    Done,
}

/// The outcome of the last action.
#[derive(Clone, Copy, Debug, PartialEq, Eq, Structural)]
pub enum Event {
    /// The run begins.
    Started,
    /// The archive was unpacked into the output location, or could not be.
    Unpacked { ok: bool },
    /// The command ended; `code` is what the process exits with on failure.
    CommandExited { success: bool, code: i32 },
    /// The output tree holds `size` bytes in regular files.
    Measured { size: u64 },
    /// The archives of the evicted entries were deleted in order, and the
    /// first `count` of them are gone; when `count` falls short, deleting the
    /// next one failed and the rest were not tried.
    Removed { count: usize },
    /// The output was packed into its archive, or packing failed.
    Packed { ok: bool },
}

/// What the caller does next.
#[derive(Debug)]
pub enum Action {
    /// Unpack this archive into the output location.
    Unpack { archive: Vec<u8> },
    /// Run the command with inherited standard streams.
    RunCommand,
    /// Sum the sizes of the regular files of the output.
    MeasureOutput,
    /// Delete the archives of these evicted keys (`archives[i]` is that of
    /// `keys[i]`), and each shard directory left empty.
    RemoveArchives { keys: Vec<CacheKey>, archives: Vec<Vec<u8>> },
    /// Pack the output into this archive.
    Pack { archive: Vec<u8> },
    /// End the process with this code.
    Exit { code: i32 },
}

/// The state of one run.
pub struct Session {
    key: Option<CacheKey>,
    budget: u64,
    dry_run: bool,
    phase: Phase,
    /// Size of the output, once measured.
    output_size: u64,
    /// The entries evicted to make room, oldest first, with their metadata
    /// from before eviction.
    victims: Vec<CacheKey>,
    victim_meta: Vec<EntryMeta>,
}

/// `m` with the entries `ks[lo..hi]`, `ms[lo..hi]` put back.
pub open spec fn reinsert(
    m: Map<CacheKey, EntryMeta>,
    ks: Seq<CacheKey>,
    ms: Seq<EntryMeta>,
    lo: int,
    hi: int,
) -> Map<CacheKey, EntryMeta>
    decreases hi - lo,
{
    if hi <= lo {
        m
    } else {
        reinsert(m, ks, ms, lo, hi - 1).insert(ks[hi - 1], ms[hi - 1])
    }
}

pub open spec fn is_exit(a: Action, code: i32) -> bool {
    match a {
        Action::Exit { code: c } => c == code,
        _ => false,
    }
}

/// `a` unpacks (or, with `unpack` false, packs) the archive of `key` under `root`.
pub open spec fn names_archive(a: Action, unpack: bool, root: Seq<u8>, key: Option<CacheKey>) -> bool {
    match (a, key) {
        (Action::Unpack { archive }, Some(k)) => unpack && archive@ == archive_path(root, k),
        (Action::Pack { archive }, Some(k)) => !unpack && archive@ == archive_path(root, k),
        _ => false,
    }
}

/// `m1` is `m0` with the entry of `k`, if any, used at `now`.
pub open spec fn touched(m0: Map<CacheKey, EntryMeta>, m1: Map<CacheKey, EntryMeta>, k: CacheKey, now: u64) -> bool {
    if m0.contains_key(k) {
        m1 == m0.insert(k, EntryMeta { last_used: now, size: m0[k].size })
    } else {
        m1 == m0
    }
}

/// The keys whose archives `a` deletes, none if it deletes nothing.
pub open spec fn removed_keys(a: Action) -> Seq<CacheKey> {
    match a {
        Action::RemoveArchives { keys, archives } => keys@,
        _ => Seq::empty(),
    }
}

/// `a` deletes exactly the archives of its keys under `root`, in order.
pub open spec fn removes_archives_of_keys(a: Action, root: Seq<u8>) -> bool {
    match a {
        Action::RemoveArchives { keys, archives } => archives@.len() == keys@.len() && forall|i: int|
            0 <= i < archives@.len() ==> (#[trigger] archives@[i])@ == archive_path(root, keys@[i]),
        _ => false,
    }
}

impl Session {
    pub closed spec fn run_key(&self) -> Option<CacheKey> {
        self.key
    }

    pub closed spec fn run_budget(&self) -> u64 {
        self.budget
    }

    pub closed spec fn is_dry(&self) -> bool {
        self.dry_run
    }

    pub closed spec fn phase_now(&self) -> Phase {
        self.phase
    }

    pub closed spec fn measured_size(&self) -> u64 {
        self.output_size
    }

    /// The keys evicted to make room, oldest first.
    pub closed spec fn victims(&self) -> Seq<CacheKey> {
        self.victims@
    }

    /// Their metadata from before eviction.
    pub closed spec fn victim_meta(&self) -> Seq<EntryMeta> {
        self.victim_meta@
    }

    /// A run that restores, measures, evicts or packs has a key, and each
    /// victim has its metadata.
    pub closed spec fn wf(&self) -> bool {
        &&& (self.phase == Phase::Restoring || self.phase == Phase::Measuring || self.phase
            == Phase::Removing || self.phase == Phase::Packing) ==> self.key is Some
        &&& self.victims@.len() == self.victim_meta@.len()
    }

    pub fn new(key: Option<CacheKey>, budget: u64, dry_run: bool) -> (r: Self)
        ensures
            r.run_key() == key,
            r.run_budget() == budget,
            r.is_dry() == dry_run,
            r.phase_now() == Phase::Start,
            r.wf(),
    {
        Session {
            key,
            budget,
            dry_run,
            phase: Phase::Start,
            output_size: 0,
            victims: Vec::new(),
            victim_meta: Vec::new(),
        }
    }

    /// Where the run stands.
    pub fn phase(&self) -> (r: Phase)
        ensures
            r == self.phase_now(),
    {
        self.phase
    }

    /// Takes the outcome of the last action and decides the next one, updating
    /// the inventory on a restore (the entry is used at `now`), on eviction and
    /// on a stored output. An event that does not fit the phase ends the run
    /// with code 1.
    pub fn step(&mut self, inv: &mut Inventory, event: Event, now: u64) -> (a: Action)
        requires
            old(inv).wf(),
            old(self).wf(),
        ensures
            final(inv).wf(),
            final(self).wf(),
            final(inv).root() == old(inv).root(),
            final(self).run_key() == old(self).run_key(),
            final(self).run_budget() == old(self).run_budget(),
            final(self).is_dry() == old(self).is_dry(),
            match (old(self).phase_now(), event) {
                (Phase::Start, Event::Started) => if !old(self).is_dry() && old(self).run_key() is Some
                    && old(inv)@.contains_key(old(self).run_key()->Some_0) {
                    &&& names_archive(a, true, old(inv).root(), old(self).run_key())
                    &&& final(self).phase_now() == Phase::Restoring
                    &&& final(inv)@ == old(inv)@
                } else if old(self).is_dry() {
                    is_exit(a, 0) && final(self).phase_now() == Phase::Done && final(inv)@ == old(inv)@
                } else {
                    a is RunCommand && final(self).phase_now() == Phase::Running && final(inv)@ == old(inv)@
                },
                (Phase::Restoring, Event::Unpacked { ok }) => if ok {
                    &&& is_exit(a, 0)
                    &&& final(self).phase_now() == Phase::Done
                    &&& touched(old(inv)@, final(inv)@, old(self).run_key()->Some_0, now)
                } else {
                    a is RunCommand && final(self).phase_now() == Phase::Running && final(inv)@ == old(inv)@
                },
                (Phase::Running, Event::CommandExited { success, code }) => final(inv)@ == old(inv)@
                    && if !success {
                    is_exit(a, code) && final(self).phase_now() == Phase::Done
                } else if old(self).run_key() is Some {
                    a is MeasureOutput && final(self).phase_now() == Phase::Measuring
                } else {
                    is_exit(a, 0) && final(self).phase_now() == Phase::Done
                },
                (Phase::Measuring, Event::Measured { size }) => final(self).measured_size() == size && if size
                    >= old(self).run_budget() {
                    is_exit(a, 0) && final(self).phase_now() == Phase::Done && final(inv)@ == old(inv)@
                } else {
                    &&& evicts_lru(
                        old(inv)@,
                        final(inv)@,
                        removed_keys(a),
                        size as int,
                        old(self).run_budget() as int,
                        final(inv).total(),
                    )
                    &&& final(self).victims() == removed_keys(a)
                    &&& final(self).victim_meta().len() == removed_keys(a).len()
                    &&& forall|i: int|
                        0 <= i < removed_keys(a).len() ==> #[trigger] final(self).victim_meta()[i]
                            == old(inv)@[removed_keys(a)[i]]
                    &&& if a is RemoveArchives {
                        &&& final(self).phase_now() == Phase::Removing
                        &&& removed_keys(a).len() > 0
                        &&& removes_archives_of_keys(a, old(inv).root())
                    } else {
                        &&& names_archive(a, false, old(inv).root(), old(self).run_key())
                        &&& final(self).phase_now() == Phase::Packing
                        &&& final(inv)@ == old(inv)@
                    }
                },
                (Phase::Removing, Event::Removed { count }) => if count >= old(self).victims().len() {
                    &&& final(inv)@ == old(inv)@
                    &&& final(self).phase_now() == Phase::Packing
                    &&& names_archive(a, false, old(inv).root(), old(self).run_key())
                } else {
                    // the deleted archives and the one that failed are gone; the
                    // rest are kept as they were before eviction
                    &&& is_exit(a, 0)
                    &&& final(self).phase_now() == Phase::Done
                    &&& final(inv)@ == reinsert(
                        old(inv)@,
                        old(self).victims(),
                        old(self).victim_meta(),
                        count + 1,
                        old(self).victims().len() as int,
                    )
                },
                (Phase::Packing, Event::Packed { ok }) => {
                    &&& is_exit(a, 0)
                    &&& final(self).phase_now() == Phase::Done
                    &&& final(inv)@ == if ok {
                        old(inv)@.insert(
                            old(self).run_key()->Some_0,
                            EntryMeta { last_used: now, size: old(self).measured_size() },
                        )
                    } else {
                        old(inv)@
                    }
                },
                _ => is_exit(a, 1) && final(self).phase_now() == Phase::Done && final(inv)@ == old(inv)@,
            },
    {
        match (self.phase, event) {
            (Phase::Start, Event::Started) => {
                if !self.dry_run {
                    if let Some(k) = self.key {
                        if inv.get(&k).is_some() {
                            self.phase = Phase::Restoring;
                            return Action::Unpack { archive: inv.to_path(&k) };
                        }
                    }
                    self.phase = Phase::Running;
                    Action::RunCommand
                } else {
                    self.phase = Phase::Done;
                    Action::Exit { code: 0 }
                }
            },
            (Phase::Restoring, Event::Unpacked { ok }) => {
                if ok {
                    if let Some(k) = self.key {
                        inv.touch(&k, now);
                        self.phase = Phase::Done;
                        return Action::Exit { code: 0 };
                    }
                    // a restore only ever starts with a key
                    self.phase = Phase::Done;
                    Action::Exit { code: 1 }
                } else {
                    self.phase = Phase::Running;
                    Action::RunCommand
                }
            },
            (Phase::Running, Event::CommandExited { success, code }) => {
                if !success {
                    self.phase = Phase::Done;
                    Action::Exit { code }
                } else if self.key.is_some() {
                    self.phase = Phase::Measuring;
                    Action::MeasureOutput
                } else {
                    self.phase = Phase::Done;
                    Action::Exit { code: 0 }
                }
            },
            (Phase::Measuring, Event::Measured { size }) => {
                self.output_size = size;
                let r = inv.make_room(size, self.budget);
                match r {
                    None => {
                        self.phase = Phase::Done;
                        Action::Exit { code: 0 }
                    },
                    Some((evicted, metas)) => {
                        let mut copy: Vec<CacheKey> = Vec::new();
                        let mut t: usize = 0;
                        while t < evicted.len()
                            invariant
                                t <= evicted@.len(),
                                copy@ == evicted@.subrange(0, t as int),
                            decreases evicted.len() - t,
                        {
                            copy.push(evicted[t]);
                            t += 1;
                        }
                        assert(evicted@.subrange(0, evicted@.len() as int) == evicted@);
                        self.victims = copy;
                        self.victim_meta = metas;
                        if evicted.len() == 0 {
                            proof {
                                assert(evicted@ =~= Seq::<CacheKey>::empty());
                                assert(evicted@.to_set() =~= Set::<CacheKey>::empty());
                                assert(inv@ =~= old(inv)@);
                            }
                            self.pack_action(inv)
                        } else {
                            let archives = archives_of(inv, &evicted);
                            self.phase = Phase::Removing;
                            Action::RemoveArchives { keys: evicted, archives }
                        }
                    },
                }
            },
            (Phase::Removing, Event::Removed { count }) => {
                if count >= self.victims.len() {
                    self.pack_action(inv)
                } else {
                    let mut j: usize = count + 1;
                    while j < self.victims.len()
                        invariant
                            inv.wf(),
                            inv.root() == old(inv).root(),
                            self.victims@.len() == self.victim_meta@.len(),
                            self.victims@ == old(self).victims(),
                            self.victim_meta@ == old(self).victim_meta(),
                            count + 1 <= j <= self.victims@.len(),
                            inv@ == reinsert(
                                old(inv)@,
                                self.victims@,
                                self.victim_meta@,
                                count + 1,
                                j as int,
                            ),
                        decreases self.victims.len() - j,
                    {
                        let m = self.victim_meta[j];
                        inv.insert(self.victims[j], m.size, m.last_used);
                        j += 1;
                    }
                    self.phase = Phase::Done;
                    Action::Exit { code: 0 }
                }
            },
            (Phase::Packing, Event::Packed { ok }) => {
                self.phase = Phase::Done;
                if ok {
                    if let Some(k) = self.key {
                        inv.insert(k, self.output_size, now);
                    }
                }
                Action::Exit { code: 0 }
            },
            _ => {
                self.phase = Phase::Done;
                Action::Exit { code: 1 }
            },
        }
    }

    fn pack_action(&mut self, inv: &Inventory) -> (a: Action)
        requires
            old(self).run_key() is Some,
        ensures
            final(self).phase_now() == Phase::Packing,
            final(self).victims() == old(self).victims(),
            final(self).victim_meta() == old(self).victim_meta(),
            final(self).run_key() == old(self).run_key(),
            final(self).run_budget() == old(self).run_budget(),
            final(self).is_dry() == old(self).is_dry(),
            final(self).measured_size() == old(self).measured_size(),
            names_archive(a, false, inv.root(), old(self).run_key()),
    {
        self.phase = Phase::Packing;
        match self.key {
            Some(k) => Action::Pack { archive: inv.to_path(&k) },
            None => Action::Exit { code: 1 },
        }
    }
}

/// The archive paths of `keys`, in order.
fn archives_of(inv: &Inventory, keys: &Vec<CacheKey>) -> (r: Vec<Vec<u8>>)
    ensures
        r@.len() == keys@.len(),
        forall|i: int| 0 <= i < r@.len() ==> (#[trigger] r@[i])@ == archive_path(inv.root(), keys@[i]),
{
    let mut r: Vec<Vec<u8>> = Vec::new();
    let mut i: usize = 0;
    while i < keys.len()
        invariant
            i <= keys@.len(),
            r@.len() == i,
            forall|j: int| 0 <= j < i ==> (#[trigger] r@[j])@ == archive_path(inv.root(), keys@[j]),
        decreases keys.len() - i,
    {
        r.push(inv.to_path(&keys[i]));
        i += 1;
    }
    r
}

} // verus!
