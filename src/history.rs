//! The history store: an ordered, pin-aware, size-bounded list of captures,
//! deduplicated by content identity.
use vstd::prelude::*;
use crate::normal_form::{distinct_keys, lemma_normal_form, unpinned_count};

verus! {

/// One retained capture.
#[derive(Clone, Debug)]
pub struct ClipboardHistoryEntry {
    pub id: String,
    pub text: String,
    pub pinned: bool,
    /// Capture instant, in milliseconds since the Unix epoch.
    pub timestamp: i64,
    pub source_app: Option<String>,
    pub window_title: Option<String>,
    pub source_url: Option<String>,
    pub capture_type: String,
    pub tags: Vec<String>,
    pub content_hash: Option<String>,
}

/// Milliseconds in one minute.
pub const MILLIS_PER_MINUTE: i128 = 60000;

/// The identity an entry is deduplicated by: its content hash, or its text
/// for an entry that has none.
pub open spec fn entry_key(e: ClipboardHistoryEntry) -> Seq<char> {
    match e.content_hash {
        Option::Some(h) => h@,
        Option::None => e.text@,
    }
}

/// The identities present in `s`.
pub open spec fn key_set(s: Seq<ClipboardHistoryEntry>) -> Set<Seq<char>> {
    Set::new(|k: Seq<char>| exists|i: int| 0 <= i < s.len() && entry_key(#[trigger] s[i]) == k)
}

/// The entries of `s` that satisfy `f`, in their order.
pub open spec fn kept(s: Seq<ClipboardHistoryEntry>, f: spec_fn(ClipboardHistoryEntry) -> bool) -> Seq<ClipboardHistoryEntry>
    decreases s.len(),
{
    if s.len() == 0 {
        s
    } else if f(s[0]) {
        seq![s[0]] + kept(s.drop_first(), f)
    } else {
        kept(s.drop_first(), f)
    }
}

/// First occurrence of each identity, scanning from the front, skipping the
/// identities in `seen`.
pub open spec fn dedup_from(s: Seq<ClipboardHistoryEntry>, seen: Set<Seq<char>>) -> Seq<ClipboardHistoryEntry>
    decreases s.len(),
{
    if s.len() == 0 {
        s
    } else if seen.contains(entry_key(s[0])) {
        dedup_from(s.drop_first(), seen)
    } else {
        seq![s[0]] + dedup_from(s.drop_first(), seen.insert(entry_key(s[0])))
    }
}

/// First occurrence of each identity in `s`.
pub open spec fn dedup_by_key(s: Seq<ClipboardHistoryEntry>) -> Seq<ClipboardHistoryEntry> {
    dedup_from(s, Set::empty())
}

/// Every pinned entry, and the first `k` unpinned ones, in order.
pub open spec fn cap_from(s: Seq<ClipboardHistoryEntry>, k: nat) -> Seq<ClipboardHistoryEntry>
    decreases s.len(),
{
    if s.len() == 0 {
        s
    } else if s[0].pinned {
        seq![s[0]] + cap_from(s.drop_first(), k)
    } else if k > 0 {
        seq![s[0]] + cap_from(s.drop_first(), (k - 1) as nat)
    } else {
        cap_from(s.drop_first(), k)
    }
}

/// `a` must stand ahead of `b`: pinned before unpinned, then newer first.
pub open spec fn precedes(a: ClipboardHistoryEntry, b: ClipboardHistoryEntry) -> bool {
    (a.pinned && !b.pinned) || (a.pinned == b.pinned && a.timestamp > b.timestamp)
}

/// `e` placed into `s` ahead of the first entry it must precede.
pub open spec fn insert_sorted(s: Seq<ClipboardHistoryEntry>, e: ClipboardHistoryEntry) -> Seq<ClipboardHistoryEntry>
    decreases s.len(),
{
    if s.len() == 0 {
        seq![e]
    } else if precedes(e, s[0]) {
        seq![e] + s
    } else {
        seq![s[0]] + insert_sorted(s.drop_first(), e)
    }
}

/// Stable sort by `precedes`.
pub open spec fn sort_entries(s: Seq<ClipboardHistoryEntry>) -> Seq<ClipboardHistoryEntry>
    decreases s.len(),
{
    if s.len() == 0 {
        s
    } else {
        insert_sorted(sort_entries(s.drop_last()), s.last())
    }
}

/// The normalisation pass: dedup by identity, cap the unpinned entries at
/// `limit`, then order pinned first and newest first.
pub open spec fn normalized_history(s: Seq<ClipboardHistoryEntry>, limit: nat) -> Seq<ClipboardHistoryEntry> {
    sort_entries(cap_from(dedup_by_key(s), limit))
}

/// No entry of `s` must stand ahead of an earlier one.
pub open spec fn is_ordered(s: Seq<ClipboardHistoryEntry>) -> bool {
    forall|i: int, j: int| 0 <= i < j < s.len() ==> !precedes(#[trigger] s[j], #[trigger] s[i])
}

/// The identity of `e`.
pub fn key_of(e: &ClipboardHistoryEntry) -> (r: &String)
    ensures
        r@ == entry_key(*e),
{
    match &e.content_hash {
        Option::Some(h) => h,
        Option::None => &e.text,
    }
}

/// Whether `a` must stand ahead of `b`.
pub fn entry_precedes(a: &ClipboardHistoryEntry, b: &ClipboardHistoryEntry) -> (r: bool)
    ensures
        r == precedes(*a, *b),
{
    (a.pinned && !b.pinned) || (a.pinned == b.pinned && a.timestamp > b.timestamp)
}

/// Whether some entry of `s` has identity `k`.
fn has_key(s: &Vec<ClipboardHistoryEntry>, k: &String) -> (r: bool)
    ensures
        r == key_set(s@).contains(k@),
{
    let mut i: usize = 0;
    while i < s.len()
        invariant
            i <= s.len(),
            forall|j: int| 0 <= j < i ==> entry_key(#[trigger] s@[j]) != k@,
        decreases s.len() - i,
    {
        if *key_of(&s[i]) == *k {
            assert(entry_key(s@[i as int]) == k@);
            return true;
        }
        i = i + 1;
    }
    false
}

pub(crate) proof fn lemma_key_set_push(s: Seq<ClipboardHistoryEntry>, e: ClipboardHistoryEntry)
    ensures
        key_set(s.push(e)) == key_set(s).insert(entry_key(e)),
{
    let t = s.push(e);
    assert forall|k: Seq<char>| key_set(t).contains(k) implies key_set(s).insert(entry_key(e)).contains(k) by {
        let i = choose|i: int| 0 <= i < t.len() && entry_key(#[trigger] t[i]) == k;
        if i < s.len() {
            assert(s[i] == t[i]);
        }
    }
    assert forall|k: Seq<char>| key_set(s).insert(entry_key(e)).contains(k) implies key_set(t).contains(k) by {
        if k == entry_key(e) {
            assert(t[s.len() as int] == e);
        } else {
            let i = choose|i: int| 0 <= i < s.len() && entry_key(#[trigger] s[i]) == k;
            assert(t[i] == s[i]);
        }
    }
    assert(key_set(s.push(e)) =~= key_set(s).insert(entry_key(e)));
}

/// Keeps the first entry of each identity.
pub fn dedup_entries(v: Vec<ClipboardHistoryEntry>) -> (r: Vec<ClipboardHistoryEntry>)
    ensures
        r@ == dedup_by_key(v@),
{
    let mut input = v;
    let mut out: Vec<ClipboardHistoryEntry> = Vec::new();
    assert(key_set(out@) =~= Set::<Seq<char>>::empty());
    assert(out@ + dedup_from(input@, key_set(out@)) =~= dedup_by_key(v@));
    while input.len() > 0
        invariant
            out@ + dedup_from(input@, key_set(out@)) == dedup_by_key(v@),
        decreases input.len(),
    {
        let ghost before = input@;
        let ghost out0 = out@;
        let e = input.remove(0);
        assert(before.drop_first() =~= input@);
        let seen = has_key(&out, key_of(&e));
        if seen {
            assert(dedup_from(before, key_set(out0)) == dedup_from(input@, key_set(out0)));
        } else {
            proof {
                lemma_key_set_push(out0, e);
            }
            out.push(e);
            assert(out0 + dedup_from(before, key_set(out0)) =~= out@ + dedup_from(input@, key_set(out@)));
        }
    }
    assert(out@ + dedup_from(input@, key_set(out@)) =~= out@);
    out
}

/// Keeps every pinned entry and the first `limit` unpinned ones.
pub fn cap_entries(v: Vec<ClipboardHistoryEntry>, limit: usize) -> (r: Vec<ClipboardHistoryEntry>)
    ensures
        r@ == cap_from(v@, limit as nat),
{
    let mut input = v;
    let mut out: Vec<ClipboardHistoryEntry> = Vec::new();
    let mut unpinned: usize = 0;
    assert(out@ + cap_from(input@, limit as nat) =~= cap_from(v@, limit as nat));
    while input.len() > 0
        invariant
            unpinned <= limit,
            out@ + cap_from(input@, (limit - unpinned) as nat) == cap_from(v@, limit as nat),
        decreases input.len(),
    {
        let ghost before = input@;
        let ghost out0 = out@;
        let e = input.remove(0);
        assert(before.drop_first() =~= input@);
        if e.pinned {
            out.push(e);
            assert(out0 + cap_from(before, (limit - unpinned) as nat) =~= out@ + cap_from(input@, (limit - unpinned) as nat));
        } else if unpinned < limit {
            out.push(e);
            assert(out0 + cap_from(before, (limit - unpinned) as nat) =~= out@ + cap_from(input@, (limit - (unpinned + 1)) as nat));
            unpinned = unpinned + 1;
        }
    }
    assert(out@ + cap_from(input@, (limit - unpinned) as nat) =~= out@);
    out
}

pub(crate) proof fn lemma_insert_sorted_at(s: Seq<ClipboardHistoryEntry>, e: ClipboardHistoryEntry, p: int)
    requires
        0 <= p <= s.len(),
        forall|i: int| 0 <= i < p ==> !precedes(e, #[trigger] s[i]),
        p == s.len() || precedes(e, s[p]),
    ensures
        insert_sorted(s, e) == s.subrange(0, p).push(e) + s.subrange(p, s.len() as int),
    decreases p,
{
    if s.len() == 0 {
        assert(s.subrange(0, p).push(e) + s.subrange(p, s.len() as int) =~= seq![e]);
    } else if p == 0 {
        assert(s.subrange(0, p).push(e) + s.subrange(p, s.len() as int) =~= seq![e] + s);
    } else {
        let t = s.drop_first();
        assert forall|i: int| 0 <= i < p - 1 implies !precedes(e, #[trigger] t[i]) by {
            assert(t[i] == s[i + 1]);
        }
        assert(!precedes(e, s[0]));
        lemma_insert_sorted_at(t, e, p - 1);
        assert(s.subrange(0, p).push(e) + s.subrange(p, s.len() as int) =~= seq![s[0]] + (t.subrange(0, p - 1).push(e) + t.subrange(p - 1, t.len() as int)));
    }
}

/// Stable sort: pinned first, then newest first; ties keep their order.
pub fn sort_history(v: Vec<ClipboardHistoryEntry>) -> (r: Vec<ClipboardHistoryEntry>)
    ensures
        r@ == sort_entries(v@),
{
    let mut input = v;
    let mut out: Vec<ClipboardHistoryEntry> = Vec::new();
    let ghost k: int = 0;
    assert(v@.subrange(0, 0) =~= Seq::<ClipboardHistoryEntry>::empty());
    assert(v@.subrange(0, v@.len() as int) =~= v@);
    while input.len() > 0
        invariant
            0 <= k <= v@.len(),
            input@ == v@.subrange(k, v@.len() as int),
            out@ == sort_entries(v@.subrange(0, k)),
        decreases input.len(),
    {
        let e = input.remove(0);
        assert(e == v@[k]);
        let mut p: usize = 0;
        while p < out.len() && !entry_precedes(&e, &out[p])
            invariant
                p <= out.len(),
                forall|i: int| 0 <= i < p ==> !precedes(e, #[trigger] out@[i]),
            decreases out.len() - p,
        {
            p = p + 1;
        }
        proof {
            lemma_insert_sorted_at(out@, e, p as int);
            let next = v@.subrange(0, k + 1);
            assert(next.drop_last() =~= v@.subrange(0, k));
            assert(next.last() == e);
            assert(sort_entries(next) == insert_sorted(out@, e));
        }
        let ghost o = out@;
        out.insert(p, e);
        assert(out@ =~= o.subrange(0, p as int).push(e) + o.subrange(p as int, o.len() as int));
        proof {
            k = k + 1;
        }
        assert(input@ =~= v@.subrange(k, v@.len() as int));
    }
    assert(v@.subrange(0, k) =~= v@);
    out
}

/// The normalisation pass over `history`: one entry per identity (the
/// first), pinned entries and at most `limit` unpinned ones, ordered pinned
/// first then newest first.
pub fn enforce_history_order_and_limit(history: &mut Vec<ClipboardHistoryEntry>, limit: usize)
    ensures
        final(history)@ == normalized_history(old(history)@, limit as nat),
{
    let mut all: Vec<ClipboardHistoryEntry> = Vec::new();
    std::mem::swap(history, &mut all);
    let unique = dedup_entries(all);
    let capped = cap_entries(unique, limit);
    let mut ordered = sort_history(capped);
    std::mem::swap(history, &mut ordered);
}

/// Why a history operation was refused.
#[derive(Clone, Copy, Debug, PartialEq, Eq, Structural)]
pub enum HistoryError {
    /// No entry has the given id.
    NotFound,
    /// The capacity must be at least one.
    InvalidLimit,
}

/// `e` is a copy of content `hash` captured within `window_minutes` before `now`.
pub open spec fn is_recent_copy(e: ClipboardHistoryEntry, hash: Seq<char>, now: int, window_minutes: nat) -> bool {
    &&& e.content_hash is Some
    &&& e.content_hash->0@ == hash
    &&& now - e.timestamp <= window_minutes * MILLIS_PER_MINUTE
}

/// Which entries a retain pass keeps.
pub enum Sieve {
    /// Entries that are not a recent copy of `hash`.
    NotRecentCopy { hash: String, now: i64, window_minutes: u64 },
    /// Pinned entries.
    Pinned,
    /// Entries whose id differs from this one.
    OtherId(String),
}

/// Whether `c` keeps `e`.
pub open spec fn sieve_keeps(c: Sieve, e: ClipboardHistoryEntry) -> bool {
    match c {
        Sieve::NotRecentCopy { hash, now, window_minutes } => !is_recent_copy(e, hash@, now as int, window_minutes as nat),
        Sieve::Pinned => e.pinned,
        Sieve::OtherId(id) => e.id@ != id@,
    }
}

/// Whether `c` keeps `e`.
fn keeps(c: &Sieve, e: &ClipboardHistoryEntry) -> (r: bool)
    ensures
        r == sieve_keeps(*c, *e),
{
    match c {
        Sieve::NotRecentCopy { hash, now, window_minutes } => {
            match &e.content_hash {
                Option::Some(h) => {
                    if *h == *hash {
                        let age: i128 = (*now as i128) - (e.timestamp as i128);
                        age > (*window_minutes as i128) * MILLIS_PER_MINUTE
                    } else {
                        true
                    }
                },
                Option::None => true,
            }
        },
        Sieve::Pinned => e.pinned,
        Sieve::OtherId(id) => !(e.id == *id),
    }
}

/// The entries of `v` that `c` keeps, in order.
pub fn retain_entries(v: Vec<ClipboardHistoryEntry>, c: &Sieve) -> (r: Vec<ClipboardHistoryEntry>)
    ensures
        r@ == kept(v@, |e: ClipboardHistoryEntry| sieve_keeps(*c, e)),
{
    let ghost f = |e: ClipboardHistoryEntry| sieve_keeps(*c, e);
    let mut input = v;
    let mut out: Vec<ClipboardHistoryEntry> = Vec::new();
    assert(out@ + kept(input@, f) =~= kept(v@, f));
    while input.len() > 0
        invariant
            out@ + kept(input@, f) == kept(v@, f),
            f == (|e: ClipboardHistoryEntry| sieve_keeps(*c, e)),
        decreases input.len(),
    {
        let ghost before = input@;
        let ghost out0 = out@;
        let e = input.remove(0);
        assert(before.drop_first() =~= input@);
        if keeps(c, &e) {
            out.push(e);
            assert(out0 + kept(before, f) =~= out@ + kept(input@, f));
        }
    }
    assert(out@ + kept(input@, f) =~= out@);
    out
}

/// Some entry of `s` has id `id`.
pub open spec fn has_id(s: Seq<ClipboardHistoryEntry>, id: Seq<char>) -> bool {
    exists|i: int| 0 <= i < s.len() && (#[trigger] s[i]).id@ == id
}

/// `s` with the first entry of id `id` set to `pinned`.
pub open spec fn with_pin(s: Seq<ClipboardHistoryEntry>, id: Seq<char>, pinned: bool) -> Seq<ClipboardHistoryEntry>
    decreases s.len(),
{
    if s.len() == 0 {
        s
    } else if s[0].id@ == id {
        seq![ClipboardHistoryEntry { pinned, ..s[0] }] + s.drop_first()
    } else {
        seq![s[0]] + with_pin(s.drop_first(), id, pinned)
    }
}

proof fn lemma_with_pin_at(s: Seq<ClipboardHistoryEntry>, id: Seq<char>, pinned: bool, p: int)
    requires
        0 <= p < s.len(),
        s[p].id@ == id,
        forall|i: int| 0 <= i < p ==> (#[trigger] s[i]).id@ != id,
    ensures
        with_pin(s, id, pinned) == s.update(p, ClipboardHistoryEntry { pinned, ..s[p] }),
    decreases p,
{
    if p == 0 {
        assert(with_pin(s, id, pinned) =~= s.update(p, ClipboardHistoryEntry { pinned, ..s[p] }));
    } else {
        let t = s.drop_first();
        assert forall|i: int| 0 <= i < p - 1 implies (#[trigger] t[i]).id@ != id by {
            assert(t[i] == s[i + 1]);
        }
        assert(s[0].id@ != id);
        lemma_with_pin_at(t, id, pinned, p - 1);
        assert(with_pin(s, id, pinned) =~= s.update(p, ClipboardHistoryEntry { pinned, ..s[p] }));
    }
}

/// Index of the first entry of `s` with id `id`, or `s.len()` when none has it.
fn position_of_id(s: &Vec<ClipboardHistoryEntry>, id: &String) -> (r: usize)
    ensures
        r <= s.len(),
        forall|j: int| 0 <= j < r ==> (#[trigger] s@[j]).id@ != id@,
        r < s.len() ==> s@[r as int].id@ == id@,
{
    let mut i: usize = 0;
    while i < s.len() && !(s[i].id == *id)
        invariant
            i <= s.len(),
            forall|j: int| 0 <= j < i ==> (#[trigger] s@[j]).id@ != id@,
        decreases s.len() - i,
    {
        i = i + 1;
    }
    i
}

/// The history store. Every mutation ends with the normalisation pass.
pub struct ClipboardHistory {
    entries: Vec<ClipboardHistoryEntry>,
    limit: usize,
}

impl View for ClipboardHistory {
    type V = Seq<ClipboardHistoryEntry>;

    closed spec fn view(&self) -> Seq<ClipboardHistoryEntry> {
        self.entries@
    }
}

impl ClipboardHistory {
    /// The capacity for unpinned entries.
    pub closed spec fn capacity(&self) -> nat {
        self.limit as nat
    }

    /// The capacity is at least one, and the entries are in normal form:
    /// ordered, one per identity, at most `capacity` unpinned.
    pub open spec fn wf(&self) -> bool {
        &&& self.capacity() >= 1
        &&& is_ordered(self@)
        &&& distinct_keys(self@)
        &&& unpinned_count(self@) <= self.capacity()
    }

    /// A store with capacity `limit` holding `entries` after normalisation.
    pub fn from_entries(entries: Vec<ClipboardHistoryEntry>, limit: usize) -> (r: Result<ClipboardHistory, HistoryError>)
        ensures
            limit == 0 <==> r is Err,
            r is Err ==> r->Err_0 == HistoryError::InvalidLimit,
            r matches Ok(h) ==> h.wf() && h.capacity() == limit && h@ == normalized_history(entries@, limit as nat),
    {
        if limit == 0 {
            return Err(HistoryError::InvalidLimit);
        }
        let ghost given = entries@;
        let mut entries = entries;
        enforce_history_order_and_limit(&mut entries, limit);
        proof {
            lemma_normal_form(given, limit as nat);
        }
        Ok(ClipboardHistory { entries, limit })
    }

    /// An empty store with capacity `limit`.
    pub fn new(limit: usize) -> (r: Result<ClipboardHistory, HistoryError>)
        ensures
            limit == 0 <==> r is Err,
            r is Err ==> r->Err_0 == HistoryError::InvalidLimit,
            r matches Ok(h) ==> h.wf() && h.capacity() == limit && h@.len() == 0,
    {
        let r = Self::from_entries(Vec::new(), limit);
        proof {
            let e = Seq::<ClipboardHistoryEntry>::empty();
            assert(dedup_by_key(e) == e);
            assert(cap_from(e, limit as nat) == e);
            assert(sort_entries(e) == e);
        }
        r
    }

    /// The entries, pinned first, then newest first.
    pub fn list(&self) -> (r: &Vec<ClipboardHistoryEntry>)
        ensures
            r@ == self@,
    {
        &self.entries
    }

    /// The capacity for unpinned entries.
    pub fn limit(&self) -> (r: usize)
        ensures
            r == self.capacity(),
    {
        self.limit
    }

    /// Sets the capacity and applies it; a zero capacity is refused and
    /// nothing changes.
    pub fn set_limit(&mut self, limit: usize) -> (r: Result<(), HistoryError>)
        requires
            old(self).wf(),
        ensures
            final(self).wf(),
            r is Err <==> limit == 0,
            r is Err ==> r->Err_0 == HistoryError::InvalidLimit && *final(self) == *old(self),
            r is Ok ==> final(self).capacity() == limit && final(self)@ == normalized_history(old(self)@, limit as nat),
    {
        if limit == 0 {
            return Err(HistoryError::InvalidLimit);
        }
        self.limit = limit;
        enforce_history_order_and_limit(&mut self.entries, limit);
        proof {
            lemma_normal_form(old(self)@, limit as nat);
        }
        Ok(())
    }

    /// Records a capture taken at `now`: drops the copies of its content
    /// captured within `window_minutes` before it, puts it in front, then
    /// normalises.
    pub fn insert(&mut self, entry: ClipboardHistoryEntry, now: i64, window_minutes: u64)
        requires
            old(self).wf(),
        ensures
            final(self).wf(),
            final(self).capacity() == old(self).capacity(),
            final(self)@ == normalized_history(seq![entry] + suppressed(old(self)@, entry, now as int, window_minutes as nat), old(self).capacity()),
    {
        let mut all: Vec<ClipboardHistoryEntry> = Vec::new();
        std::mem::swap(&mut self.entries, &mut all);
        let ghost old_entries = all@;
        let mut rest = match &entry.content_hash {
            Option::Some(h) => {
                let sieve = Sieve::NotRecentCopy { hash: h.clone(), now, window_minutes };
                let r = retain_entries(all, &sieve);
                assert((|e: ClipboardHistoryEntry| sieve_keeps(sieve, e)) =~= (|e: ClipboardHistoryEntry| !is_recent_copy(e, h@, now as int, window_minutes as nat)));
                r
            },
            Option::None => all,
        };
        assert(rest@ == suppressed(old_entries, entry, now as int, window_minutes as nat));
        let ghost rest0 = rest@;
        rest.insert(0, entry);
        assert(rest@ =~= seq![entry] + rest0);
        enforce_history_order_and_limit(&mut rest, self.limit);
        self.entries = rest;
        proof {
            lemma_normal_form(seq![entry] + suppressed(old(self)@, entry, now as int, window_minutes as nat), self.limit as nat);
        }
    }

    /// Removes every entry with id `id`, then normalises; refused when there
    /// is none.
    pub fn delete(&mut self, id: &String) -> (r: Result<(), HistoryError>)
        requires
            old(self).wf(),
        ensures
            final(self).wf(),
            final(self).capacity() == old(self).capacity(),
            r is Err <==> !has_id(old(self)@, id@),
            r is Err ==> r->Err_0 == HistoryError::NotFound && final(self)@ == old(self)@,
            r is Ok ==> final(self)@ == normalized_history(kept(old(self)@, |e: ClipboardHistoryEntry| e.id@ != id@), old(self).capacity()),
    {
        let i = position_of_id(&self.entries, id);
        if i == self.entries.len() {
            return Err(HistoryError::NotFound);
        }
        let mut all: Vec<ClipboardHistoryEntry> = Vec::new();
        std::mem::swap(&mut self.entries, &mut all);
        let sieve = Sieve::OtherId(id.clone());
        let mut rest = retain_entries(all, &sieve);
        assert((|e: ClipboardHistoryEntry| sieve_keeps(sieve, e)) =~= (|e: ClipboardHistoryEntry| e.id@ != id@));
        enforce_history_order_and_limit(&mut rest, self.limit);
        self.entries = rest;
        proof {
            lemma_normal_form(kept(old(self)@, |e: ClipboardHistoryEntry| e.id@ != id@), self.limit as nat);
        }
        Ok(())
    }

    /// Sets `pinned` on the first entry with id `id`, then normalises;
    /// refused when there is none.
    pub fn set_pinned(&mut self, id: &String, pinned: bool) -> (r: Result<(), HistoryError>)
        requires
            old(self).wf(),
        ensures
            final(self).wf(),
            final(self).capacity() == old(self).capacity(),
            r is Err <==> !has_id(old(self)@, id@),
            r is Err ==> r->Err_0 == HistoryError::NotFound && final(self)@ == old(self)@,
            r is Ok ==> final(self)@ == normalized_history(with_pin(old(self)@, id@, pinned), old(self).capacity()),
    {
        let i = position_of_id(&self.entries, id);
        if i == self.entries.len() {
            return Err(HistoryError::NotFound);
        }
        proof {
            lemma_with_pin_at(self.entries@, id@, pinned, i as int);
        }
        let mut e = self.entries.remove(i);
        e.pinned = pinned;
        self.entries.insert(i, e);
        assert(self.entries@ =~= with_pin(old(self)@, id@, pinned));
        enforce_history_order_and_limit(&mut self.entries, self.limit);
        proof {
            lemma_normal_form(with_pin(old(self)@, id@, pinned), self.limit as nat);
        }
        Ok(())
    }

    /// Removes every entry, or every unpinned one when `keep_pinned`, then
    /// normalises.
    pub fn clear(&mut self, keep_pinned: bool)
        requires
            old(self).wf(),
        ensures
            final(self).wf(),
            final(self).capacity() == old(self).capacity(),
            keep_pinned ==> final(self)@ == normalized_history(kept(old(self)@, |e: ClipboardHistoryEntry| e.pinned), old(self).capacity()),
            !keep_pinned ==> final(self)@.len() == 0,
    {
        let mut all: Vec<ClipboardHistoryEntry> = Vec::new();
        std::mem::swap(&mut self.entries, &mut all);
        let mut rest = if keep_pinned {
            let r = retain_entries(all, &Sieve::Pinned);
            assert((|e: ClipboardHistoryEntry| sieve_keeps(Sieve::Pinned, e)) =~= (|e: ClipboardHistoryEntry| e.pinned));
            r
        } else {
            Vec::new()
        };
        proof {
            let e = Seq::<ClipboardHistoryEntry>::empty();
            assert(dedup_by_key(e) == e);
            assert(cap_from(e, self.limit as nat) == e);
            assert(sort_entries(e) == e);
        }
        let ghost pre = rest@;
        enforce_history_order_and_limit(&mut rest, self.limit);
        self.entries = rest;
        proof {
            lemma_normal_form(pre, self.limit as nat);
        }
    }
}

/// `s` without the copies of `entry`'s content captured within
/// `window_minutes` before `now`.
pub open spec fn suppressed(s: Seq<ClipboardHistoryEntry>, entry: ClipboardHistoryEntry, now: int, window_minutes: nat) -> Seq<ClipboardHistoryEntry> {
    match entry.content_hash {
        Option::Some(h) => kept(s, |e: ClipboardHistoryEntry| !is_recent_copy(e, h@, now, window_minutes)),
        Option::None => s,
    }
}

} // verus!
