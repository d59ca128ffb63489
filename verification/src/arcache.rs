//! The adaptive replacement cache: a recency tier that blocks enter on
//! their first read, and a frequency tier that they move to on their second.

use std::collections::VecDeque;
use vstd::prelude::*;
use crate::dvaddr::DVAddr;
use crate::zfs::Error;

verus! {

/// Sectors that a tier holds unless told otherwise.
pub const DEFAULT_TIER_SIZE: u64 = 1000;
/// Use count above which the next use starts the count again.
pub const FREQ_CEILING: u64 = 1000;
/// Use count of a block that enters the frequency tier by admission.
pub const FREQ_ADMITTED: u64 = 2;

/// A cached block with its address and use count.
struct Entry {
    dva: DVAddr,
    freq: u64,
    block: Vec<u8>,
}

/// The entries as a map from address to use count and bytes.
spec fn table_of(entries: Seq<Entry>) -> Map<DVAddr, (u64, Seq<u8>)>
    decreases entries.len(),
{
    if entries.len() == 0 {
        Map::empty()
    } else {
        table_of(entries.drop_last()).insert(
            entries.last().dva,
            (entries.last().freq, entries.last().block@),
        )
    }
}

/// No address occurs twice among the entries.
spec fn distinct(entries: Seq<Entry>) -> bool {
    forall|i: int, j: int| 0 <= i < j < entries.len() ==> entries[i].dva != entries[j].dva
}

/// Sum of the allocated sizes of the addresses in `q`.
pub open spec fn total(q: Seq<DVAddr>) -> nat
    decreases q.len(),
{
    if q.len() == 0 {
        0
    } else {
        total(q.drop_last()) + q.last().asize as nat
    }
}

proof fn lemma_table_dom(entries: Seq<Entry>, d: DVAddr)
    ensures
        table_of(entries).contains_key(d) <==> exists|i: int|
            0 <= i < entries.len() && (#[trigger] entries[i]).dva == d,
    decreases entries.len(),
{
    if entries.len() > 0 {
        let front = entries.drop_last();
        lemma_table_dom(front, d);
        if table_of(entries).contains_key(d) {
            if entries.last().dva == d {
                assert(entries[entries.len() - 1].dva == d);
            } else {
                let i = choose|i: int| 0 <= i < front.len() && (#[trigger] front[i]).dva == d;
                assert(entries[i].dva == d);
            }
        }
        if exists|i: int| 0 <= i < entries.len() && (#[trigger] entries[i]).dva == d {
            let i = choose|i: int| 0 <= i < entries.len() && (#[trigger] entries[i]).dva == d;
            if i < entries.len() - 1 {
                assert(front[i].dva == d);
            }
        }
    }
}

proof fn lemma_table_at(entries: Seq<Entry>, i: int)
    requires
        distinct(entries),
        0 <= i < entries.len(),
    ensures
        table_of(entries).contains_key(entries[i].dva),
        table_of(entries)[entries[i].dva] == (entries[i].freq, entries[i].block@),
    decreases entries.len(),
{
    if i < entries.len() - 1 {
        let front = entries.drop_last();
        assert(front[i] == entries[i]);
        lemma_table_at(front, i);
    }
}

proof fn lemma_table_remove(entries: Seq<Entry>, i: int)
    requires
        distinct(entries),
        0 <= i < entries.len(),
    ensures
        distinct(entries.remove(i)),
        table_of(entries.remove(i)) == table_of(entries).remove(entries[i].dva),
    decreases entries.len(),
{
    let front = entries.drop_last();
    let rest = entries.remove(i);
    if i == entries.len() - 1 {
        assert(rest =~= front);
        lemma_table_dom(front, entries[i].dva);
        assert(table_of(front) =~= table_of(entries).remove(entries[i].dva));
    } else {
        assert(rest.drop_last() =~= front.remove(i));
        assert(rest.last() == entries.last());
        assert(front[i] == entries[i]);
        lemma_table_remove(front, i);
        assert(table_of(rest) =~= table_of(entries).remove(entries[i].dva));
    }
}

proof fn lemma_table_push(entries: Seq<Entry>, e: Entry)
    requires
        distinct(entries),
        !table_of(entries).contains_key(e.dva),
    ensures
        distinct(entries.push(e)),
        table_of(entries.push(e)) == table_of(entries).insert(e.dva, (e.freq, e.block@)),
{
    assert(entries.push(e).drop_last() =~= entries);
    assert forall|i: int, j: int| 0 <= i < j < entries.push(e).len() implies entries.push(e)[i].dva
        != entries.push(e)[j].dva by {
        lemma_table_dom(entries, e.dva);
        assert(entries[i] == entries.push(e)[i]);
    }
}

proof fn lemma_total_front(d: DVAddr, q: Seq<DVAddr>)
    ensures
        total(seq![d] + q) == d.asize as nat + total(q),
    decreases q.len(),
{
    let all = seq![d] + q;
    if q.len() == 0 {
        assert(all.drop_last() =~= q);
    } else {
        assert(all.drop_last() =~= seq![d] + q.drop_last());
        assert(all.last() == q.last());
        lemma_total_front(d, q.drop_last());
    }
}

/// Position of the entry for `dva`, if there is one.
fn find(entries: &Vec<Entry>, dva: &DVAddr) -> (r: Option<usize>)
    ensures
        match r {
            Some(i) => i < entries@.len() && entries@[i as int].dva == *dva && table_of(
                entries@,
            ).contains_key(*dva),
            None => !table_of(entries@).contains_key(*dva),
        },
{
    let mut i: usize = 0;
    while i < entries.len()
        invariant
            i <= entries@.len(),
            forall|j: int| 0 <= j < i ==> (#[trigger] entries@[j]).dva != *dva,
        decreases entries@.len() - i,
    {
        if entries[i].dva == *dva {
            proof {
                lemma_table_dom(entries@, *dva);
            }
            return Some(i);
        }
        i += 1;
    }
    proof {
        lemma_table_dom(entries@, *dva);
    }
    None
}

/// Takes the entry for `dva` out, if there is one, and hands back its bytes.
fn take(entries: &mut Vec<Entry>, dva: &DVAddr) -> (r: Option<Vec<u8>>)
    requires
        distinct(old(entries)@),
    ensures
        distinct(final(entries)@),
        table_of(final(entries)@) == table_of(old(entries)@).remove(*dva),
        match r {
            Some(block) => table_of(old(entries)@).contains_key(*dva) && table_of(old(entries)@)[*dva].1
                == block@,
            None => !table_of(old(entries)@).contains_key(*dva),
        },
{
    match find(entries, dva) {
        Some(i) => {
            proof {
                lemma_table_at(entries@, i as int);
                lemma_table_remove(entries@, i as int);
            }
            let e = entries.remove(i);
            Some(e.block)
        },
        None => {
            assert(table_of(entries@) =~= table_of(entries@).remove(*dva));
            None
        },
    }
}

/// Sets the entry for `dva`, in place of the one there may be.
fn put(entries: &mut Vec<Entry>, dva: &DVAddr, freq: u64, block: Vec<u8>)
    requires
        distinct(old(entries)@),
    ensures
        distinct(final(entries)@),
        table_of(final(entries)@) == table_of(old(entries)@).insert(*dva, (freq, block@)),
{
    let _ = take(entries, dva);
    let e = Entry { dva: *dva, freq, block };
    proof {
        lemma_table_push(entries@, e);
        assert(table_of(old(entries)@).remove(*dva).insert(*dva, (freq, block@)) =~= table_of(
            old(entries)@,
        ).insert(*dva, (freq, block@)));
    }
    entries.push(e);
}

/// The recency tier as a value.
pub struct MruView {
    /// Bytes of each cached block.
    pub blocks: Map<DVAddr, Seq<u8>>,
    /// The tracked addresses, the newest first.
    pub queue: Seq<DVAddr>,
    /// Sectors that the tier may hold.
    pub size: nat,
    /// Sectors that the tracked addresses take.
    pub used: nat,
}

impl MruView {
    /// The tracked addresses take what is accounted, and no more than the tier may hold.
    pub open spec fn fits(self) -> bool {
        total(self.queue) == self.used && self.used <= self.size
    }

    /// Every cached block is at an address that the tier tracks.
    pub open spec fn keeps_track(self) -> bool {
        forall|d: DVAddr| self.blocks.contains_key(d) ==> self.queue.contains(d)
    }

    /// The tier without its oldest tracked address.
    pub open spec fn evict_oldest(self) -> MruView {
        MruView {
            blocks: self.blocks.remove(self.queue.last()),
            queue: self.queue.drop_last(),
            size: self.size,
            used: (self.used - self.queue.last().asize) as nat,
        }
    }

    /// The tier after the oldest tracked addresses left, one by one, until
    /// `need` more sectors fit or nothing is tracked any more.
    pub open spec fn make_room(self, need: nat) -> MruView
        decreases self.queue.len(),
    {
        if self.used + need <= self.size || self.queue.len() == 0 {
            self
        } else {
            self.evict_oldest().make_room(need)
        }
    }

    /// Whether a block at `dva` can be admitted: whether it fits once room was made.
    pub open spec fn admits(self, dva: DVAddr) -> bool {
        self.make_room(dva.asize as nat).used + dva.asize <= self.size
    }

    /// The tier after the admission of `block` at `dva`: room is made, and
    /// where the block then fits it is cached and tracked as the newest.
    pub open spec fn admitted(self, dva: DVAddr, block: Seq<u8>) -> MruView {
        let room = self.make_room(dva.asize as nat);
        if self.admits(dva) {
            MruView {
                blocks: room.blocks.insert(dva, block),
                queue: seq![dva] + room.queue,
                size: room.size,
                used: room.used + dva.asize as nat,
            }
        } else {
            room
        }
    }
}

/// An eviction leaves every cached block at a tracked address.
pub proof fn lemma_evict_keeps_track(v: MruView)
    requires
        v.keeps_track(),
        v.queue.len() > 0,
    ensures
        v.evict_oldest().keeps_track(),
{
    let after = v.evict_oldest();
    assert forall|d: DVAddr| after.blocks.contains_key(d) implies after.queue.contains(d) by {
        assert(v.queue.contains(d));
        let i = choose|i: int| 0 <= i < v.queue.len() && v.queue[i] == d;
        assert(after.queue[i] == d);
    }
}

/// Making room keeps the size and the accounting, caches nothing new, and
/// leaves every cached block at a tracked address.
pub proof fn lemma_make_room(v: MruView, need: nat)
    requires
        v.fits(),
    ensures
        v.make_room(need).fits(),
        v.make_room(need).size == v.size,
        v.make_room(need).blocks.dom().subset_of(v.blocks.dom()),
        v.make_room(need).used + need > v.size ==> v.make_room(need).queue.len() == 0,
        v.keeps_track() ==> v.make_room(need).keeps_track(),
    decreases v.queue.len(),
{
    if !(v.used + need <= v.size || v.queue.len() == 0) {
        if v.keeps_track() {
            lemma_evict_keeps_track(v);
        }
        lemma_make_room(v.evict_oldest(), need);
    }
}

/// The capacity of the recency tier holds: after an admission, granted or
/// not, the tracked addresses take no more sectors than the tier may hold.
pub proof fn lemma_admission_fits(v: MruView, dva: DVAddr, block: Seq<u8>)
    requires
        v.fits(),
    ensures
        v.admitted(dva, block).fits(),
        v.admitted(dva, block).size == v.size,
        v.keeps_track() ==> v.admitted(dva, block).keeps_track(),
{
    lemma_make_room(v, dva.asize as nat);
    let room = v.make_room(dva.asize as nat);
    lemma_total_front(dva, room.queue);
    if v.keeps_track() && v.admits(dva) {
        let after = v.admitted(dva, block);
        assert forall|d: DVAddr| after.blocks.contains_key(d) implies after.queue.contains(d) by {
            if d == dva {
                assert(after.queue[0] == d);
            } else {
                assert(room.queue.contains(d));
                let i = choose|i: int| 0 <= i < room.queue.len() && room.queue[i] == d;
                assert(after.queue[i + 1] == d);
            }
        }
    }
}

/// A block that the recency tier cannot take in leaves it empty: every
/// tracked address was evicted for it, and with them every cached block.
pub proof fn lemma_exhausted_empty(v: MruView, dva: DVAddr, block: Seq<u8>)
    requires
        v.fits(),
        v.keeps_track(),
        !v.admits(dva),
    ensures
        v.admitted(dva, block).queue.len() == 0,
        v.admitted(dva, block).blocks == Map::<DVAddr, Seq<u8>>::empty(),
        v.admitted(dva, block).used == 0,
{
    lemma_make_room(v, dva.asize as nat);
    let room = v.make_room(dva.asize as nat);
    assert forall|d: DVAddr| !room.blocks.contains_key(d) by {
        if room.blocks.contains_key(d) {
            assert(room.queue.contains(d));
        }
    }
    assert(room.blocks =~= Map::<DVAddr, Seq<u8>>::empty());
}

/// Bytes of each entry, without the use counts.
spec fn blocks_of(entries: Seq<Entry>) -> Map<DVAddr, Seq<u8>> {
    Map::new(|d: DVAddr| table_of(entries).contains_key(d), |d: DVAddr| table_of(entries)[d].1)
}

/// A copy of `block`.
fn copy_of(block: &Vec<u8>) -> (r: Vec<u8>)
    ensures
        r@ == block@,
{
    let mut r: Vec<u8> = Vec::new();
    let mut i: usize = 0;
    while i < block.len()
        invariant
            i <= block@.len(),
            r@ == block@.take(i as int),
        decreases block@.len() - i,
    {
        r.push(block[i]);
        proof {
            assert(block@.take(i + 1) =~= block@.take(i as int).push(block@[i as int]));
        }
        i += 1;
    }
    assert(block@.take(block@.len() as int) =~= block@);
    r
}

/// The recency tier: blocks in the order of their admission, bounded by
/// the sectors allocated to them.
pub struct Mru {
    map: Vec<Entry>,
    queue: VecDeque<DVAddr>,
    size: u64,
    used: u64,
}

impl Mru {
    /// The tier as a value.
    pub closed spec fn view(&self) -> MruView {
        MruView {
            blocks: blocks_of(self.map@),
            queue: self.queue@,
            size: self.size as nat,
            used: self.used as nat,
        }
    }

    /// The tier is sound: no block is cached twice, the accounting holds,
    /// and every cached block is at a tracked address.
    pub closed spec fn wf(&self) -> bool {
        distinct(self.map@) && self@.fits() && self@.keeps_track()
    }

    /// A sound tier keeps within its capacity and tracks what it caches.
    pub proof fn lemma_wf_fits(&self)
        requires
            self.wf(),
        ensures
            self@.fits(),
            self@.keeps_track(),
    {
    }

    /// The empty tier of the default size, as a value.
    pub open spec fn new_view() -> MruView {
        MruView {
            blocks: Map::empty(),
            queue: Seq::empty(),
            size: DEFAULT_TIER_SIZE as nat,
            used: 0,
        }
    }

    /// An empty tier of the default size.
    pub fn new() -> (r: Mru)
        ensures
            r.wf(),
            r@ == Self::new_view(),
    {
        Self::with_size(DEFAULT_TIER_SIZE)
    }

    /// An empty tier that may hold `size` sectors.
    pub fn with_size(size: u64) -> (r: Mru)
        ensures
            r.wf(),
            r@ == (MruView { blocks: Map::empty(), queue: Seq::empty(), size: size as nat, used: 0 }),
    {
        let r = Mru { map: Vec::new(), queue: VecDeque::new(), size, used: 0 };
        assert(r@.blocks =~= Map::empty());
        assert(r@.queue =~= Seq::empty());
        r
    }

    /// Sectors that the tracked addresses take.
    pub fn used(&self) -> (r: u64)
        ensures
            r == self@.used,
    {
        self.used
    }

    /// Sectors that the tier may hold.
    pub fn size(&self) -> (r: u64)
        ensures
            r == self@.size,
    {
        self.size
    }

    /// Whether the block at `dva` is cached in this tier.
    pub fn contains(&self, dva: &DVAddr) -> (r: bool)
        ensures
            r == self@.blocks.contains_key(*dva),
    {
        find(&self.map, dva).is_some()
    }

    /// Admits `block` at `dva`: evicts the oldest tracked addresses until
    /// the block fits, then caches it and tracks it as the newest.
    ///
    /// Returns a copy of the block, or `CacheExhausted` where the block
    /// does not fit an empty tier; every tracked address is gone by then.
    pub fn cache_block(&mut self, dva: &DVAddr, block: Vec<u8>) -> (r: Result<Vec<u8>, Error>)
        requires
            old(self).wf(),
        ensures
            final(self).wf(),
            final(self)@.fits(),
            final(self)@.keeps_track(),
            final(self)@ == old(self)@.admitted(*dva, block@),
            old(self)@.admits(*dva) ==> r is Ok && r->Ok_0@ == block@,
            !old(self)@.admits(*dva) ==> r == Err::<Vec<u8>, Error>(Error::CacheExhausted),
    {
        let need = dva.asize();
        while self.size - self.used < need
            invariant
                self.wf(),
                need == dva.asize,
                self@.make_room(need as nat) == old(self)@.make_room(need as nat),
                self@.size == old(self)@.size,
            decreases self.queue@.len(),
        {
            let ghost before = self@;
            match self.queue.pop_back() {
                None => {
                    return Err(Error::CacheExhausted);
                },
                Some(last) => {
                    let _ = take(&mut self.map, &last);
                    self.used = self.used - last.asize();
                    proof {
                        assert(self@.queue =~= before.queue.drop_last());
                        assert(self@.blocks =~= before.blocks.remove(last));
                        assert(self@ == before.evict_oldest());
                        lemma_evict_keeps_track(before);
                    }
                },
            }
        }
        let copy = copy_of(&block);
        proof {
            lemma_total_front(*dva, self@.queue);
        }
        let ghost room = self@;
        self.used = self.used + need;
        put(&mut self.map, dva, 0, block);
        self.queue.push_front(*dva);
        proof {
            assert(self@.blocks =~= room.blocks.insert(*dva, block@));
            assert(self@ == old(self)@.admitted(*dva, block@));
            lemma_admission_fits(old(self)@, *dva, block@);
        }
        Ok(copy)
    }
}

/// The frequency tier as a value.
pub struct MfuView {
    /// Use count and bytes of each cached block.
    pub table: Map<DVAddr, (u64, Seq<u8>)>,
    /// Sectors that the tier may hold.
    pub size: nat,
    /// Sectors accounted to the blocks that were admitted.
    pub used: nat,
}

impl MfuView {
    /// Whether any block may leave: whether the tier caches one at all.
    pub open spec fn can_evict(self) -> bool {
        exists|d: DVAddr| self.table.contains_key(d)
    }

    /// Whether the block at `d` may leave: no block has a lower use count.
    pub open spec fn lowest(self, d: DVAddr) -> bool {
        &&& self.table.contains_key(d)
        &&& forall|o: DVAddr|
            self.table.contains_key(o) ==> self.table[d].0 <= (#[trigger] self.table[o]).0
    }

    /// The tier after the block at `victim` made way for `block` at `dva`.
    pub open spec fn replaced(self, victim: DVAddr, dva: DVAddr, block: Seq<u8>) -> MfuView {
        MfuView {
            table: self.table.remove(victim).insert(dva, (FREQ_ADMITTED, block)),
            size: self.size,
            used: self.used + dva.asize as nat,
        }
    }
}

/// The frequency tier: blocks with the number of times they were used.
pub struct Mfu {
    map: Vec<Entry>,
    size: u64,
    used: u64,
}

impl Mfu {
    /// The tier as a value.
    pub closed spec fn view(&self) -> MfuView {
        MfuView { table: table_of(self.map@), size: self.size as nat, used: self.used as nat }
    }

    /// The tier is sound: no block is cached twice.
    pub closed spec fn wf(&self) -> bool {
        distinct(self.map@)
    }

    /// An empty tier of the default size.
    pub fn new() -> (r: Mfu)
        ensures
            r.wf(),
            r@ == (MfuView { table: Map::empty(), size: DEFAULT_TIER_SIZE as nat, used: 0 }),
    {
        Self::with_size(DEFAULT_TIER_SIZE)
    }

    /// An empty tier that may hold `size` sectors.
    pub fn with_size(size: u64) -> (r: Mfu)
        ensures
            r.wf(),
            r@ == (MfuView { table: Map::empty(), size: size as nat, used: 0 }),
    {
        Mfu { map: Vec::new(), size, used: 0 }
    }

    /// Whether the block at `dva` is cached in this tier.
    pub fn contains(&self, dva: &DVAddr) -> (r: bool)
        ensures
            r == self@.table.contains_key(*dva),
    {
        find(&self.map, dva).is_some()
    }

    /// Use count of the block at `dva`, if it is cached in this tier.
    pub fn frequency(&self, dva: &DVAddr) -> (r: Option<u64>)
        requires
            self.wf(),
        ensures
            match r {
                Some(f) => self@.table.contains_key(*dva) && self@.table[*dva].0 == f,
                None => !self@.table.contains_key(*dva),
            },
    {
        match find(&self.map, dva) {
            Some(i) => {
                proof {
                    lemma_table_at(self.map@, i as int);
                }
                Some(self.map[i].freq)
            },
            None => None,
        }
    }

    /// Takes in `block` at `dva` as a block that moves up from the recency
    /// tier: its use count starts at zero, and nothing is evicted for it.
    pub fn promote(&mut self, dva: &DVAddr, block: Vec<u8>)
        requires
            old(self).wf(),
        ensures
            final(self).wf(),
            final(self)@ == (MfuView {
                table: old(self)@.table.insert(*dva, (0, block@)),
                ..old(self)@
            }),
    {
        put(&mut self.map, dva, 0, block);
    }

    /// Makes room by evicting one block with the lowest use count, then
    /// caches `block` at `dva` with the use count of an admitted block.
    ///
    /// Returns a copy of the block, or `CacheExhausted`, with the tier as
    /// it was, where it caches no block that could leave.
    pub fn cache_block(&mut self, dva: &DVAddr, block: Vec<u8>) -> (r: Result<Vec<u8>, Error>)
        requires
            old(self).wf(),
            old(self)@.used + dva.asize <= u64::MAX,
        ensures
            final(self).wf(),
            r is Err <==> !old(self)@.can_evict(),
            r is Err ==> r == Err::<Vec<u8>, Error>(Error::CacheExhausted) && final(self)@ == old(
                self,
            )@,
            r is Ok ==> r->Ok_0@ == block@ && exists|victim: DVAddr| #[trigger]
                old(self)@.lowest(victim) && final(self)@ == old(self)@.replaced(
                    victim,
                    *dva,
                    block@,
                ),
    {
        let mut lowest_freq: u64 = u64::MAX;
        let mut lowest: Option<usize> = None;
        let mut i: usize = 0;
        while i < self.map.len()
            invariant
                *self == *old(self),
                i <= self.map@.len(),
                forall|j: int| 0 <= j < i ==> (#[trigger] self.map@[j]).freq >= lowest_freq,
                match lowest {
                    Some(l) => l < i && self.map@[l as int].freq == lowest_freq,
                    None => i == 0,
                },
            decreases self.map@.len() - i,
        {
            if lowest.is_none() || self.map[i].freq < lowest_freq {
                lowest_freq = self.map[i].freq;
                lowest = Some(i);
            }
            i += 1;
        }
        let ghost before = self@;
        let ghost entries = self.map@;
        match lowest {
            None => {
                proof {
                    assert forall|d: DVAddr| !before.table.contains_key(d) by {
                        lemma_table_dom(entries, d);
                    }
                }
                Err(Error::CacheExhausted)
            },
            Some(l) => {
                let victim = self.map[l].dva;
                proof {
                    lemma_table_at(entries, l as int);
                    assert forall|o: DVAddr| before.table.contains_key(o) implies before.table[victim].0
                        <= (#[trigger] before.table[o]).0 by {
                        lemma_table_dom(entries, o);
                        let j = choose|j: int| 0 <= j < entries.len() && (#[trigger] entries[j]).dva == o;
                        lemma_table_at(entries, j);
                    }
                    assert(before.lowest(victim));
                    lemma_table_remove(entries, l as int);
                }
                let _ = self.map.remove(l);
                let copy = copy_of(&block);
                self.used = self.used + dva.asize();
                put(&mut self.map, dva, FREQ_ADMITTED, block);
                proof {
                    assert(self@ == before.replaced(victim, *dva, block@));
                }
                Ok(copy)
            },
        }
    }
}

/// The whole cache as a value.
pub struct ArcView {
    pub mru: MruView,
    pub mfu: MfuView,
}

impl ArcView {
    /// No address is cached in both tiers.
    pub open spec fn exclusive(self) -> bool {
        forall|d: DVAddr| !(self.mru.blocks.contains_key(d) && self.mfu.table.contains_key(d))
    }

    /// Whether the block at `dva` is cached, in either tier.
    pub open spec fn holds(self, dva: DVAddr) -> bool {
        self.mru.blocks.contains_key(dva) || self.mfu.table.contains_key(dva)
    }

    /// The bytes that the cache serves for `dva`, if it holds them.
    pub open spec fn served(self, dva: DVAddr) -> Option<Seq<u8>> {
        if self.mru.blocks.contains_key(dva) {
            Some(self.mru.blocks[dva])
        } else if self.mfu.table.contains_key(dva) {
            Some(self.mfu.table[dva].1)
        } else {
            None
        }
    }

    /// The use count after one more use of a block that was used `freq` times.
    pub open spec fn bumped(freq: u64) -> u64 {
        if freq > FREQ_CEILING {
            0
        } else {
            (freq + 1) as u64
        }
    }

    /// The cache after a read of `dva`. A block of the recency tier moves
    /// to the frequency tier, with its use count at zero; the recency tier
    /// goes on tracking its address. A block of the frequency tier is used
    /// once more. A miss changes nothing.
    pub open spec fn touched(self, dva: DVAddr) -> ArcView {
        if self.mru.blocks.contains_key(dva) {
            ArcView {
                mru: MruView { blocks: self.mru.blocks.remove(dva), ..self.mru },
                mfu: MfuView {
                    table: self.mfu.table.insert(dva, (0, self.mru.blocks[dva])),
                    ..self.mfu
                },
            }
        } else if self.mfu.table.contains_key(dva) {
            ArcView {
                mru: self.mru,
                mfu: MfuView {
                    table: self.mfu.table.insert(
                        dva,
                        (Self::bumped(self.mfu.table[dva].0), self.mfu.table[dva].1),
                    ),
                    ..self.mfu
                },
            }
        } else {
            self
        }
    }

    /// The cache after `block`, read from storage on a miss, was handed to it for `dva`.
    pub open spec fn filled(self, dva: DVAddr, block: Seq<u8>) -> ArcView {
        ArcView { mru: self.mru.admitted(dva, block), mfu: self.mfu }
    }
}

/// A read keeps the tiers exclusive: no address comes to be cached in both.
pub proof fn lemma_read_exclusive(c: ArcView, dva: DVAddr)
    requires
        c.exclusive(),
    ensures
        c.touched(dva).exclusive(),
{
}

/// Filling the cache after a miss keeps the tiers exclusive.
pub proof fn lemma_fill_exclusive(c: ArcView, dva: DVAddr, block: Seq<u8>)
    requires
        c.exclusive(),
        c.mru.fits(),
        !c.holds(dva),
    ensures
        c.filled(dva, block).exclusive(),
{
    lemma_make_room(c.mru, dva.asize as nat);
}

/// A block that was filled in after a miss is served by the cache alone
/// from then on: the next read finds it in the recency tier and moves it
/// to the frequency tier, and the read after that finds it there.
pub proof fn lemma_promotion(c: ArcView, dva: DVAddr, block: Seq<u8>)
    requires
        c.exclusive(),
        c.mru.fits(),
        !c.holds(dva),
        c.mru.admits(dva),
    ensures
        c.filled(dva, block).mru.blocks.contains_key(dva),
        c.filled(dva, block).served(dva) == Some(block),
        !c.filled(dva, block).touched(dva).mru.blocks.contains_key(dva),
        c.filled(dva, block).touched(dva).mfu.table.contains_key(dva),
        c.filled(dva, block).touched(dva).mfu.table[dva] == (0u64, block),
        c.filled(dva, block).touched(dva).served(dva) == Some(block),
{
    lemma_make_room(c.mru, dva.asize as nat);
}

/// The cache after one read of `dva` all the way through: served by the
/// cache where it holds the block, else filled with `block`, the bytes
/// that storage gave for the address.
pub open spec fn read_through(c: ArcView, dva: DVAddr, block: Seq<u8>) -> ArcView {
    if c.holds(dva) {
        c.touched(dva)
    } else {
        c.filled(dva, block)
    }
}

/// The cache after a run of reads, each an address with the bytes that
/// storage holds for it.
pub open spec fn after_reads(c: ArcView, reads: Seq<(DVAddr, Seq<u8>)>) -> ArcView
    decreases reads.len(),
{
    if reads.len() == 0 {
        c
    } else {
        read_through(after_reads(c, reads.drop_last()), reads.last().0, reads.last().1)
    }
}

/// Whatever is read, and in whatever order, no address comes to be cached
/// in both tiers, and the addresses that the recency tier tracks never
/// take more sectors than it may hold.
pub proof fn lemma_reads_keep_sound(c: ArcView, reads: Seq<(DVAddr, Seq<u8>)>)
    requires
        c.exclusive(),
        c.mru.fits(),
    ensures
        after_reads(c, reads).exclusive(),
        after_reads(c, reads).mru.fits(),
        c.mru.keeps_track() ==> after_reads(c, reads).mru.keeps_track(),
        after_reads(c, reads).mru.size == c.mru.size,
    decreases reads.len(),
{
    if reads.len() > 0 {
        let before = after_reads(c, reads.drop_last());
        lemma_reads_keep_sound(c, reads.drop_last());
        lemma_read_exclusive(before, reads.last().0);
        if !before.holds(reads.last().0) {
            lemma_fill_exclusive(before, reads.last().0, reads.last().1);
            lemma_admission_fits(before.mru, reads.last().0, reads.last().1);
        }
    }
}

/// The adaptive replacement cache. Its buffers live on the heap, each
/// block in a vector of its own.
pub struct ArCache {
    mru: Mru,
    mfu: Mfu,
}

impl ArCache {
    /// The cache as a value.
    pub closed spec fn view(&self) -> ArcView {
        ArcView { mru: self.mru@, mfu: self.mfu@ }
    }

    /// The cache is sound: both tiers are, and no address is cached in both.
    pub closed spec fn wf(&self) -> bool {
        self.mru.wf() && self.mfu.wf() && self@.exclusive()
    }

    /// An empty cache with both tiers of the default size.
    pub fn new() -> (r: ArCache)
        ensures
            r.wf(),
            r@.mru == Mru::new_view(),
            r@.mfu == (MfuView { table: Map::empty(), size: DEFAULT_TIER_SIZE as nat, used: 0 }),
    {
        Self::with_sizes(DEFAULT_TIER_SIZE, DEFAULT_TIER_SIZE)
    }

    /// An empty cache whose recency tier may hold `recency` sectors and
    /// whose frequency tier `frequency`.
    pub fn with_sizes(recency: u64, frequency: u64) -> (r: ArCache)
        ensures
            r.wf(),
            r@.mru == (MruView {
                blocks: Map::empty(),
                queue: Seq::empty(),
                size: recency as nat,
                used: 0,
            }),
            r@.mfu == (MfuView { table: Map::empty(), size: frequency as nat, used: 0 }),
    {
        ArCache { mru: Mru::with_size(recency), mfu: Mfu::with_size(frequency) }
    }

    /// Whether the block at `dva` is cached in the recency tier.
    pub fn in_recency(&self, dva: &DVAddr) -> (r: bool)
        ensures
            r == self@.mru.blocks.contains_key(*dva),
    {
        self.mru.contains(dva)
    }

    /// Whether the block at `dva` is cached in the frequency tier.
    pub fn in_frequency(&self, dva: &DVAddr) -> (r: bool)
        ensures
            r == self@.mfu.table.contains_key(*dva),
    {
        self.mfu.contains(dva)
    }

    /// Use count of the block at `dva`, if it is cached in the frequency tier.
    pub fn frequency(&self, dva: &DVAddr) -> (r: Option<u64>)
        requires
            self.wf(),
        ensures
            match r {
                Some(f) => self@.mfu.table.contains_key(*dva) && self@.mfu.table[*dva].0 == f,
                None => !self@.mfu.table.contains_key(*dva),
            },
    {
        self.mfu.frequency(dva)
    }

    /// Sectors that the addresses tracked by the recency tier take.
    pub fn recency_used(&self) -> (r: u64)
        ensures
            r == self@.mru.used,
    {
        self.mru.used()
    }

    /// Reads the block at `dva` from the cache.
    ///
    /// Returns a copy of the bytes where either tier holds the block, and
    /// `None` on a miss: the caller then reads the block from storage and
    /// hands it to `fill`.
    pub fn read(&mut self, dva: &DVAddr) -> (r: Option<Vec<u8>>)
        requires
            old(self).wf(),
        ensures
            final(self).wf(),
            final(self)@.exclusive(),
            final(self)@.mru.fits(),
            final(self)@.mru.keeps_track(),
            final(self)@ == old(self)@.touched(*dva),
            match r {
                Some(block) => old(self)@.served(*dva) == Some(block@),
                None => old(self)@.served(*dva) is None,
            },
    {
        let ghost before = self@;
        match take(&mut self.mru.map, dva) {
            Some(block) => {
                let copy = copy_of(&block);
                self.mfu.promote(dva, block);
                proof {
                    assert(self@.mru.blocks =~= before.mru.blocks.remove(*dva));
                    assert(self@.mru == (MruView {
                        blocks: before.mru.blocks.remove(*dva),
                        ..before.mru
                    }));
                }
                Some(copy)
            },
            None => {
                proof {
                    assert(self@.mru.blocks =~= before.mru.blocks);
                }
                match find(&self.mfu.map, dva) {
                    Some(i) => {
                        proof {
                            lemma_table_at(self.mfu.map@, i as int);
                            lemma_table_remove(self.mfu.map@, i as int);
                        }
                        let e = self.mfu.map.remove(i);
                        let freq = if e.freq > FREQ_CEILING {
                            0
                        } else {
                            e.freq + 1
                        };
                        let copy = copy_of(&e.block);
                        put(&mut self.mfu.map, dva, freq, e.block);
                        proof {
                            assert(self@.mfu.table =~= before.mfu.table.insert(
                                *dva,
                                (freq, before.mfu.table[*dva].1),
                            ));
                        }
                        Some(copy)
                    },
                    None => None,
                }
            },
        }
    }

    /// Hands the cache `block`, read from storage after a miss on `dva`: it
    /// enters the recency tier, which makes room for it.
    ///
    /// Returns a copy of the block, or `CacheExhausted` where the block is
    /// larger than the recency tier.
    pub fn fill(&mut self, dva: &DVAddr, block: Vec<u8>) -> (r: Result<Vec<u8>, Error>)
        requires
            old(self).wf(),
            !old(self)@.holds(*dva),
        ensures
            final(self).wf(),
            final(self)@.exclusive(),
            final(self)@.mru.fits(),
            final(self)@.mru.keeps_track(),
            final(self)@ == old(self)@.filled(*dva, block@),
            old(self)@.mru.admits(*dva) ==> r is Ok && r->Ok_0@ == block@,
            !old(self)@.mru.admits(*dva) ==> r == Err::<Vec<u8>, Error>(Error::CacheExhausted),
    {
        proof {
            lemma_fill_exclusive(self@, *dva, block@);
        }
        self.mru.cache_block(dva, block)
    }
}

} // verus!
