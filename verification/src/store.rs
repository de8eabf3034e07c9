use vstd::prelude::*;

verus! {

/// A value held against a key. Numbers that the wire or the snapshot carry
/// as text (floating-point values and sorted-set scores) are kept as their
/// decimal text, so they round-trip bit-exactly.
pub enum RedisValue {
    String(Vec<u8>),
    Integer(i64),
    Float(Vec<u8>),
    Boolean(bool),
    Null,
    List(Vec<Vec<u8>>),
    SetVal(Vec<Vec<u8>>),
    SortedSet(Vec<(Vec<u8>, Vec<u8>)>),
    Hash(Vec<(Vec<u8>, Vec<u8>)>),
    Zipmap(Vec<u8>),
    Ziplist(Vec<u8>),
    Intset(Vec<u8>),
    Quicklist(Vec<u8>),
}

/// The mathematical shape of a stored value.
pub enum ValueView {
    String(Seq<u8>),
    Integer(i64),
    Float(Seq<u8>),
    Boolean(bool),
    Null,
    List(Seq<Seq<u8>>),
    SetVal(Seq<Seq<u8>>),
    SortedSet(Seq<(Seq<u8>, Seq<u8>)>),
    Hash(Seq<(Seq<u8>, Seq<u8>)>),
    Zipmap(Seq<u8>),
    Ziplist(Seq<u8>),
    Intset(Seq<u8>),
    Quicklist(Seq<u8>),
}

impl View for RedisValue {
    type V = ValueView;

    open spec fn view(&self) -> ValueView {
        match self {
            RedisValue::String(b) => ValueView::String(b@),
            RedisValue::Integer(i) => ValueView::Integer(*i),
            RedisValue::Float(t) => ValueView::Float(t@),
            RedisValue::Boolean(b) => ValueView::Boolean(*b),
            RedisValue::Null => ValueView::Null,
            RedisValue::List(v) => ValueView::List(Seq::new(v@.len(), |i: int| v@[i]@)),
            RedisValue::SetVal(v) => ValueView::SetVal(Seq::new(v@.len(), |i: int| v@[i]@)),
            RedisValue::SortedSet(v) => ValueView::SortedSet(
                Seq::new(v@.len(), |i: int| (v@[i].0@, v@[i].1@)),
            ),
            RedisValue::Hash(v) => ValueView::Hash(Seq::new(v@.len(), |i: int| (v@[i].0@, v@[i].1@))),
            RedisValue::Zipmap(b) => ValueView::Zipmap(b@),
            RedisValue::Ziplist(b) => ValueView::Ziplist(b@),
            RedisValue::Intset(b) => ValueView::Intset(b@),
            RedisValue::Quicklist(b) => ValueView::Quicklist(b@),
        }
    }
}

/// What the keyspace knows of one key: the value and, when the key carries a
/// time to live, the monotonic-clock deadline in milliseconds.
pub struct EntryView {
    pub value: ValueView,
    pub expires_at: Option<u64>,
}

/// One slot of the keyspace.
pub struct Entry {
    pub key: Vec<u8>,
    pub value: RedisValue,
    pub expires_at: Option<u64>,
}

impl Entry {
    /// What this slot says.
    pub open spec fn entry_view(&self) -> EntryView {
        EntryView { value: self.value@, expires_at: self.expires_at }
    }
}

/// An entry is live at `now` when it has no deadline or its deadline has not
/// passed yet: a read at the deadline instant itself still sees the value.
pub open spec fn live_at(e: EntryView, now: u64) -> bool {
    match e.expires_at {
        Some(dl) => now <= dl,
        None => true,
    }
}

/// An entry outlives a sweep at `now` when it has no deadline or its
/// deadline stands strictly ahead: the sweep removes every deadline at or
/// before its own instant, one step ahead of what a read would still see.
pub open spec fn outlives_sweep(e: EntryView, now: u64) -> bool {
    match e.expires_at {
        Some(dl) => now < dl,
        None => true,
    }
}

/// The mapping that a row of slots amounts to: later slots win.
pub open spec fn entries_map(s: Seq<Entry>) -> Map<Seq<u8>, EntryView>
    decreases s.len(),
{
    if s.len() == 0 {
        Map::empty()
    } else {
        entries_map(s.drop_last()).insert(s.last().key@, s.last().entry_view())
    }
}

/// The in-memory keyspace: a binary key maps to a typed value and an
/// optional deadline. The value and the deadline sit in one slot, so no key
/// can carry a deadline without a value.
pub struct Store {
    entries: Vec<Entry>,
}

/// Why a `set` was refused.
#[derive(PartialEq, Eq, Structural, Clone, Copy, Debug)]
pub enum SetError {
    /// NX and XX cannot both be asked for.
    ConflictingConditions,
    /// EX and PX cannot both be given.
    ConflictingDurations,
    /// A time to live must be strictly positive.
    NonPositiveDuration,
}

/// What a permitted `set` did.
#[derive(PartialEq, Eq, Structural, Clone, Copy, Debug)]
pub enum SetOutcome {
    /// The value was stored.
    Done,
    /// An NX or XX condition did not hold; nothing changed.
    NotSet,
}

/// Addition that stops at the top of `u64` instead of wrapping.
pub open spec fn sat_add(a: u64, b: u64) -> u64 {
    if a + b > u64::MAX {
        u64::MAX
    } else {
        (a + b) as u64
    }
}

/// Multiplication that stops at the top of `u64` instead of wrapping.
pub open spec fn sat_mul(a: u64, b: u64) -> u64 {
    if a * b > u64::MAX {
        u64::MAX
    } else {
        (a * b) as u64
    }
}

/// The deadline a `set` installs: `now` plus the time to live, PX given in
/// milliseconds, EX in seconds; none when no time to live is given.
pub open spec fn spec_deadline(ex: Option<u64>, px: Option<u64>, now: u64) -> Option<u64> {
    match px {
        Some(ms) => Some(sat_add(now, ms)),
        None => match ex {
            Some(sec) => Some(sat_add(now, sat_mul(sec, 1000))),
            None => None,
        },
    }
}

/// The option conflicts a `set` refuses, checked before anything changes.
pub open spec fn spec_set_error(
    ex: Option<u64>,
    px: Option<u64>,
    nx: bool,
    xx: bool,
) -> Option<SetError> {
    if nx && xx {
        Some(SetError::ConflictingConditions)
    } else if ex is Some && px is Some {
        Some(SetError::ConflictingDurations)
    } else if ex == Some(0u64) || px == Some(0u64) {
        Some(SetError::NonPositiveDuration)
    } else {
        None
    }
}

/// What a `get` observes at `now`: the stored value, unless the key is
/// absent or its deadline has passed.
pub open spec fn spec_lookup(m: Map<Seq<u8>, EntryView>, k: Seq<u8>, now: u64) -> Option<
    ValueView,
> {
    if m.contains_key(k) && live_at(m[k], now) {
        Some(m[k].value)
    } else {
        None
    }
}

/// Bytes equality, stated over the views.
pub fn bytes_eq(a: &[u8], b: &[u8]) -> (r: bool)
    ensures
        r == (a@ == b@),
{
    if a.len() != b.len() {
        return false;
    }
    let mut i: usize = 0;
    while i < a.len()
        invariant
            i <= a@.len(),
            a@.len() == b@.len(),
            forall|j: int| 0 <= j < i ==> a@[j] == b@[j],
        decreases a@.len() - i,
    {
        if a[i] != b[i] {
            return false;
        }
        i = i + 1;
    }
    proof {
        assert(a@ =~= b@);
    }
    true
}

/// Every key of the mapping is the key of some slot, every slot's key is in
/// the mapping, and under distinct keys each slot is the authority for its
/// own key.
pub(crate) proof fn lemma_entries_map(s: Seq<Entry>)
    ensures
        forall|k: Seq<u8>|
            #[trigger] entries_map(s).contains_key(k) <==> exists|i: int|
                0 <= i < s.len() && s[i].key@ == k,
        (forall|i: int, j: int|
            0 <= i < j < s.len() ==> s[i].key@ != s[j].key@) ==> forall|i: int|
            0 <= i < s.len() ==> #[trigger] entries_map(s)[s[i].key@] == s[i].entry_view(),
    decreases s.len(),
{
    if s.len() > 0 {
        lemma_entries_map(s.drop_last());
        assert forall|k: Seq<u8>| #[trigger]
            entries_map(s).contains_key(k) implies exists|i: int|
            0 <= i < s.len() && s[i].key@ == k by {
            if k == s.last().key@ {
                assert(s[s.len() - 1].key@ == k);
            } else {
                let i = choose|i: int| 0 <= i < s.drop_last().len() && s.drop_last()[i].key@ == k;
                assert(s[i].key@ == k);
            }
        }
        assert forall|k: Seq<u8>|
            (exists|i: int| 0 <= i < s.len() && s[i].key@ == k) implies #[trigger] entries_map(
            s,
        ).contains_key(k) by {
            let i = choose|i: int| 0 <= i < s.len() && s[i].key@ == k;
            if i < s.len() - 1 {
                assert(s.drop_last()[i].key@ == k);
            }
        }
        if forall|i: int, j: int| 0 <= i < j < s.len() ==> s[i].key@ != s[j].key@ {
            assert forall|i: int| 0 <= i < s.len() implies #[trigger] entries_map(s)[s[i].key@]
                == s[i].entry_view() by {
                if i < s.len() - 1 {
                    assert(s.drop_last()[i].key@ == s[i].key@);
                    assert(s[i].key@ != s.last().key@);
                }
            }
        }
    }
}

impl View for Store {
    type V = Map<Seq<u8>, EntryView>;

    closed spec fn view(&self) -> Map<Seq<u8>, EntryView> {
        entries_map(self.entries@)
    }
}

impl Store {
    /// The slots carry pairwise distinct keys.
    pub closed spec fn wf(&self) -> bool {
        forall|i: int, j: int|
            0 <= i < j < self.entries@.len() ==> self.entries@[i].key@ != self.entries@[j].key@
    }

    /// An empty keyspace.
    pub fn new() -> (r: Store)
        ensures
            r.wf(),
            r@ == Map::<Seq<u8>, EntryView>::empty(),
    {
        Store { entries: Vec::new() }
    }

    /// The slot that holds `key`, if one does.
    fn find(&self, key: &[u8]) -> (r: Option<usize>)
        requires
            self.wf(),
        ensures
            match r {
                Some(i) => i < self.entries@.len() && self.entries@[i as int].key@ == key@
                    && self@.contains_key(key@) && self@[key@] == self.entries@[i as int].entry_view(),
                None => !self@.contains_key(key@),
            },
    {
        proof {
            lemma_entries_map(self.entries@);
        }
        let mut i: usize = 0;
        while i < self.entries.len()
            invariant
                i <= self.entries@.len(),
                forall|j: int| 0 <= j < i ==> self.entries@[j].key@ != key@,
                self.wf(),
                forall|ii: int|
                    0 <= ii < self.entries@.len() ==> #[trigger] entries_map(self.entries@)[self.entries@[ii].key@]
                        == self.entries@[ii].entry_view(),
                forall|k: Seq<u8>|
                    #[trigger] entries_map(self.entries@).contains_key(k) <==> exists|ii: int|
                        0 <= ii < self.entries@.len() && self.entries@[ii].key@ == k,
            decreases self.entries@.len() - i,
        {
            if bytes_eq(self.entries[i].key.as_slice(), key) {
                return Some(i);
            }
            i = i + 1;
        }
        None
    }

    /// Stores `value` against `key` as a string, honouring NX and XX and
    /// installing the deadline that EX or PX asks for. An NX or XX condition
    /// that fails leaves the keyspace unchanged and answers `NotSet`; a
    /// successful store replaces both the value and the deadline slot, so a
    /// re-set without a time to live clears any earlier one. Conflicting
    /// options and a zero duration are refused up front, exactly as
    /// `spec_set_error` says.
    pub fn set(
        &mut self,
        key: Vec<u8>,
        value: Vec<u8>,
        ex: Option<u64>,
        px: Option<u64>,
        nx: bool,
        xx: bool,
        now: u64,
    ) -> (r: Result<SetOutcome, SetError>)
        requires
            old(self).wf(),
        ensures
            final(self).wf(),
            match spec_set_error(ex, px, nx, xx) {
                Some(e) => r == Err::<SetOutcome, SetError>(e) && final(self)@ == old(self)@,
                None => {
                    if (nx && old(self)@.contains_key(key@)) || (xx && !old(self)@.contains_key(
                        key@,
                    )) {
                        r == Ok::<SetOutcome, SetError>(SetOutcome::NotSet) && final(self)@ == old(
                            self,
                        )@
                    } else {
                        r == Ok::<SetOutcome, SetError>(SetOutcome::Done) && final(self)@ == old(
                            self,
                        )@.insert(
                            key@,
                            EntryView {
                                value: ValueView::String(value@),
                                expires_at: spec_deadline(ex, px, now),
                            },
                        )
                    }
                },
            },
    {
        if nx && xx {
            return Err(SetError::ConflictingConditions);
        }
        if ex.is_some() && px.is_some() {
            return Err(SetError::ConflictingDurations);
        }
        if ex == Some(0u64) || px == Some(0u64) {
            return Err(SetError::NonPositiveDuration);
        }
        let found = self.find(key.as_slice());
        if nx && found.is_some() {
            return Ok(SetOutcome::NotSet);
        }
        if xx && found.is_none() {
            return Ok(SetOutcome::NotSet);
        }
        let deadline: Option<u64> = match px {
            Some(ms) => Some(saturating_add(now, ms)),
            None => match ex {
                Some(sec) => Some(saturating_add(now, saturating_mul(sec, 1000))),
                None => None,
            },
        };
        let entry = Entry { key, value: RedisValue::String(value), expires_at: deadline };
        match found {
            Some(i) => {
                let ghost pre = self.entries@;
                self.entries.set(i, entry);
                proof {
                    lemma_entries_map_update(pre, i as int, self.entries@[i as int]);
                }
            },
            None => {
                let ghost pre = self.entries@;
                proof {
                    lemma_entries_map(pre);
                }
                self.entries.push(entry);
                proof {
                    assert(self.entries@.drop_last() =~= pre);
                    assert forall|a: int| 0 <= a < pre.len() implies pre[a].key@ != key@ by {
                        if pre[a].key@ == key@ {
                            assert(entries_map(pre).contains_key(key@));
                        }
                    }
                }
            },
        }
        Ok(SetOutcome::Done)
    }

    /// Binds `key` to `value` with the given deadline, replacing whatever
    /// stood there.
    pub fn upsert(&mut self, key: Vec<u8>, value: RedisValue, expires_at: Option<u64>)
        requires
            old(self).wf(),
        ensures
            final(self).wf(),
            final(self)@ == old(self)@.insert(key@, EntryView { value: value@, expires_at }),
    {
        let found = self.find(key.as_slice());
        let ghost kv = key@;
        let entry = Entry { key, value, expires_at };
        match found {
            Some(i) => {
                let ghost pre = self.entries@;
                self.entries.set(i, entry);
                proof {
                    lemma_entries_map_update(pre, i as int, self.entries@[i as int]);
                }
            },
            None => {
                let ghost pre = self.entries@;
                proof {
                    lemma_entries_map(pre);
                }
                self.entries.push(entry);
                proof {
                    assert(self.entries@.drop_last() =~= pre);
                    assert forall|a: int| 0 <= a < pre.len() implies pre[a].key@ != kv by {
                        if pre[a].key@ == kv {
                            assert(entries_map(pre).contains_key(kv));
                        }
                    }
                }
            },
        }
    }

    /// Empties the keyspace.
    pub fn clear(&mut self)
        ensures
            final(self).wf(),
            final(self)@ == Map::<Seq<u8>, EntryView>::empty(),
    {
        self.entries = Vec::new();
    }

    /// The slots as they stand: their keys are pairwise distinct and their
    /// mapping is the keyspace itself. The order is not promised.
    pub fn export(&self) -> (r: &Vec<Entry>)
        requires
            self.wf(),
        ensures
            entries_map(r@) == self@,
            forall|i: int, j: int| 0 <= i < j < r@.len() ==> r@[i].key@ != r@[j].key@,
    {
        &self.entries
    }

    /// Reads `key` at `now`. A key whose deadline has passed reads as absent
    /// whether or not a sweep has reclaimed it yet.
    pub fn get(&self, key: &[u8], now: u64) -> (r: Option<&RedisValue>)
        requires
            self.wf(),
        ensures
            match r {
                Some(v) => spec_lookup(self@, key@, now) == Some(v@),
                None => spec_lookup(self@, key@, now) is None,
            },
    {
        match self.find(key) {
            Some(i) => {
                let e = &self.entries[i];
                match e.expires_at {
                    Some(dl) => {
                        if now > dl {
                            None
                        } else {
                            Some(&e.value)
                        }
                    },
                    None => Some(&e.value),
                }
            },
            None => None,
        }
    }

    /// The keys that are present, not expired at `now`, and match the
    /// pattern, each exactly once, in no promised order. The pattern `*`
    /// keeps every live key.
    pub fn get_keys_matching_pattern(&self, pattern: &[u8], now: u64) -> (r: Vec<Vec<u8>>)
        requires
            self.wf(),
        ensures
            forall|i: int, j: int| 0 <= i < j < r@.len() ==> r@[i]@ != r@[j]@,
            forall|i: int|
                0 <= i < r@.len() ==> self@.contains_key(#[trigger] r@[i]@) && live_at(
                    self@[r@[i]@],
                    now,
                ) && key_matches(pattern@, r@[i]@),
            forall|k: Seq<u8>|
                self@.contains_key(k) && live_at(#[trigger] self@[k], now) && key_matches(
                    pattern@,
                    k,
                ) ==> exists|i: int| 0 <= i < r@.len() && r@[i]@ == k,
    {
        proof {
            lemma_entries_map(self.entries@);
        }
        let star = pattern.len() == 1 && pattern[0] == 42;
        proof {
            if star {
                assert(pattern@ =~= seq![42u8]);
            }
        }
        let mut out: Vec<Vec<u8>> = Vec::new();
        let mut i: usize = 0;
        while i < self.entries.len()
            invariant
                i <= self.entries@.len(),
                self.wf(),
                star == (pattern@ == seq![42u8]),
                forall|a: int, b: int| 0 <= a < b < out@.len() ==> out@[a]@ != out@[b]@,
                forall|a: int|
                    0 <= a < out@.len() ==> exists|ii: int|
                        0 <= ii < i && self.entries@[ii].key@ == #[trigger] out@[a]@,
                forall|ii: int|
                    0 <= ii < i ==> (live_at(self.entries@[ii].entry_view(), now) && key_matches(
                        pattern@,
                        #[trigger] self.entries@[ii].key@,
                    ) <==> exists|a: int| 0 <= a < out@.len() && out@[a]@ == self.entries@[ii].key@),
                forall|ii: int|
                    0 <= ii < self.entries@.len() ==> #[trigger] entries_map(self.entries@)[self.entries@[ii].key@]
                        == self.entries@[ii].entry_view(),
                forall|k: Seq<u8>|
                    #[trigger] entries_map(self.entries@).contains_key(k) <==> exists|ii: int|
                        0 <= ii < self.entries@.len() && self.entries@[ii].key@ == k,
            decreases self.entries@.len() - i,
        {
            let ghost out0 = out@;
            let ghost n = i as int;
            let e = &self.entries[i];
            let live = match e.expires_at {
                Some(dl) => now <= dl,
                None => true,
            };
            let mut added = false;
            if live {
                let matched = if star {
                    true
                } else {
                    glob_key_match(pattern, e.key.as_slice())
                };
                if matched {
                    let mut k: Vec<u8> = Vec::new();
                    push_key(&mut k, e.key.as_slice());
                    proof {
                        assert(k@ =~= self.entries@[n].key@);
                    }
                    out.push(k);
                    added = true;
                }
            }
            proof {
                let hit = live_at(self.entries@[n].entry_view(), now) && key_matches(
                    pattern@,
                    self.entries@[n].key@,
                );
                assert(added ==> out@ == out0.push(out@.last()) && out@.last()@
                    == self.entries@[n].key@);
                assert(added == hit);
                assert forall|ii: int|
                    0 <= ii < n + 1 implies (live_at(self.entries@[ii].entry_view(), now)
                    && key_matches(pattern@, #[trigger] self.entries@[ii].key@) <==> exists|a: int|
                    0 <= a < out@.len() && out@[a]@ == self.entries@[ii].key@) by {
                    if ii < n {
                        if live_at(self.entries@[ii].entry_view(), now) && key_matches(
                            pattern@,
                            self.entries@[ii].key@,
                        ) {
                            let a = choose|a: int|
                                0 <= a < out0.len() && out0[a]@ == self.entries@[ii].key@;
                            assert(out@[a]@ == self.entries@[ii].key@);
                        }
                        if exists|a: int|
                            0 <= a < out@.len() && out@[a]@ == self.entries@[ii].key@ {
                            let a = choose|a: int|
                                0 <= a < out@.len() && out@[a]@ == self.entries@[ii].key@;
                            if a < out0.len() {
                                assert(out0[a]@ == self.entries@[ii].key@);
                            } else {
                                assert(added && out@[a]@ == self.entries@[n].key@);
                                assert(self.entries@[ii].key@ != self.entries@[n].key@);
                                assert(false);
                            }
                        }
                    } else {
                        if hit {
                            assert(out@[out@.len() - 1]@ == self.entries@[n].key@);
                        }
                        if exists|a: int|
                            0 <= a < out@.len() && out@[a]@ == self.entries@[n].key@ {
                            let a = choose|a: int|
                                0 <= a < out@.len() && out@[a]@ == self.entries@[n].key@;
                            if !added {
                                let jj = choose|jj: int|
                                    0 <= jj < n && self.entries@[jj].key@ == #[trigger] out@[a]@;
                                assert(self.entries@[jj].key@ != self.entries@[n].key@);
                                assert(false);
                            }
                        }
                    }
                }
            }
            i = i + 1;
        }
        proof {
            assert forall|k: Seq<u8>|
                self@.contains_key(k) && live_at(#[trigger] self@[k], now) && key_matches(
                    pattern@,
                    k,
                ) implies exists|a: int| 0 <= a < out@.len() && out@[a]@ == k by {
                let ii = choose|ii: int|
                    0 <= ii < self.entries@.len() && self.entries@[ii].key@ == k;
                assert(entries_map(self.entries@)[k] == self.entries@[ii].entry_view());
            }
        }
        out
    }

    /// Removes every slot whose deadline stands at or before `now`; the
    /// surviving slots keep their values and deadlines untouched.
    pub fn purge_expired_keys(&mut self, now: u64)
        requires
            old(self).wf(),
        ensures
            final(self).wf(),
            is_purge_of(final(self)@, old(self)@, now),
    {
        let ghost pre = self.entries@;
        proof {
            lemma_entries_map(pre);
            assert(pre.take(pre.len() as int) =~= pre);
        }
        let mut kept: Vec<Entry> = Vec::new();
        while self.entries.len() > 0
            invariant
                self.entries@ == pre.take(self.entries@.len() as int),
                self.entries@.len() <= pre.len(),
                forall|a: int, b: int| 0 <= a < b < pre.len() ==> pre[a].key@ != pre[b].key@,
                forall|a: int|
                    0 <= a < kept@.len() ==> exists|ii: int|
                        self.entries@.len() <= ii < pre.len() && #[trigger] kept@[a] == pre[ii],
                forall|a: int, b: int| 0 <= a < b < kept@.len() ==> kept@[a].key@ != kept@[b].key@,
                forall|ii: int|
                    self.entries@.len() <= ii < pre.len() ==> (outlives_sweep(
                        #[trigger] pre[ii].entry_view(),
                        now,
                    ) <==> exists|a: int| 0 <= a < kept@.len() && kept@[a] == pre[ii]),
            decreases self.entries@.len(),
        {
            let ghost n = self.entries@.len() as int;
            let e = match self.entries.pop() {
                Some(e) => e,
                None => {
                    proof {
                        assert(false);
                    }
                    return ;
                },
            };
            proof {
                assert(pre.take(n)[n - 1] == pre[n - 1]);
                assert(pre.take(n).subrange(0, n - 1) =~= pre.take(n - 1));
            }
            let live = match e.expires_at {
                Some(dl) => now < dl,
                None => true,
            };
            let ghost kept0 = kept@;
            if live {
                proof {
                    assert forall|a: int| 0 <= a < kept@.len() implies kept@[a].key@
                        != pre[n - 1].key@ by {
                        let ii = choose|ii: int|
                            n <= ii < pre.len() && #[trigger] kept@[a] == pre[ii];
                        assert(pre[n - 1].key@ != pre[ii].key@);
                    }
                }
                kept.push(e);
                proof {
                    assert(kept@.last() == pre[n - 1]);
                }
            }
            proof {
                assert forall|ii: int|
                    n - 1 <= ii < pre.len() implies (outlives_sweep(
                    #[trigger] pre[ii].entry_view(),
                    now,
                ) <==> exists|a: int| 0 <= a < kept@.len() && kept@[a] == pre[ii]) by {
                    if ii >= n {
                        if outlives_sweep(pre[ii].entry_view(), now) {
                            let a = choose|a: int| 0 <= a < kept0.len() && kept0[a] == pre[ii];
                            assert(kept@[a] == pre[ii]);
                        }
                        if exists|a: int| 0 <= a < kept@.len() && kept@[a] == pre[ii] {
                            let a = choose|a: int| 0 <= a < kept@.len() && kept@[a] == pre[ii];
                            if a < kept0.len() {
                                assert(kept0[a] == pre[ii]);
                            } else {
                                assert(live && kept@[a] == pre[n - 1]);
                                assert(pre[n - 1].key@ == pre[ii].key@);
                                assert(false);
                            }
                        }
                    } else {
                        if live {
                            assert(kept@[kept@.len() - 1] == pre[n - 1]);
                        }
                        if exists|a: int| 0 <= a < kept@.len() && kept@[a] == pre[n - 1] {
                            let a = choose|a: int| 0 <= a < kept@.len() && kept@[a] == pre[n - 1];
                            if !live {
                                let jj = choose|jj: int|
                                    n <= jj < pre.len() && #[trigger] kept@[a] == pre[jj];
                                assert(pre[jj].key@ == pre[n - 1].key@);
                                assert(false);
                            }
                        }
                    }
                }
            }
        }
        self.entries = kept;
        proof {
            assert(pre.take(0) =~= Seq::<Entry>::empty());
            lemma_entries_map(self.entries@);
            assert forall|k: Seq<u8>| #[trigger]
                entries_map(self.entries@).contains_key(k) implies entries_map(pre).contains_key(k)
                && outlives_sweep(entries_map(pre)[k], now) && entries_map(self.entries@)[k]
                == entries_map(pre)[k] by {
                let a = choose|a: int|
                    0 <= a < self.entries@.len() && self.entries@[a].key@ == k;
                let ii = choose|ii: int| 0 <= ii < pre.len() && #[trigger] kept@[a] == pre[ii];
                assert(pre[ii].key@ == k);
                assert(entries_map(pre)[k] == pre[ii].entry_view());
                assert(entries_map(self.entries@)[k] == self.entries@[a].entry_view());
            }
            assert forall|k: Seq<u8>|
                entries_map(pre).contains_key(k) && outlives_sweep(
                    #[trigger] entries_map(pre)[k],
                    now,
                ) implies entries_map(self.entries@).contains_key(k) by {
                let ii = choose|ii: int| 0 <= ii < pre.len() && pre[ii].key@ == k;
                assert(entries_map(pre)[k] == pre[ii].entry_view());
                let a = choose|a: int| 0 <= a < kept@.len() && kept@[a] == pre[ii];
                assert(self.entries@[a].key@ == k);
            }
        }
    }
}

/// A slot's key may match a pattern. The pattern `*` keeps every key;
/// anything else matches as the glob matcher says.
pub open spec fn key_matches(pattern: Seq<u8>, key: Seq<u8>) -> bool {
    if pattern == seq![42u8] {
        true
    } else {
        glob_match(pattern, key)
    }
}

/// Whether a key matches a glob pattern with `*`, `?` and `[...]`, read as
/// the glob crate reads them; false when the pattern does not compile. A
/// function of the two byte strings alone.
pub uninterp spec fn glob_match(pattern: Seq<u8>, key: Seq<u8>) -> bool;

/// Relies on glob::Pattern::new and glob::Pattern::matches: compiles the
/// pattern and matches the key against it, after the same lossy text
/// conversion the collaborating server applies; an uncompilable pattern
/// matches nothing.
#[verifier::external_body]
fn glob_key_match(pattern: &[u8], key: &[u8]) -> (r: bool)
    ensures
        r == glob_match(pattern@, key@),
{
    let p = String::from_utf8_lossy(pattern);
    let k = String::from_utf8_lossy(key);
    match glob::Pattern::new(&p) {
        Ok(pat) => pat.matches(&k),
        Err(_) => false,
    }
}

/// Appends a copy of `src` to `out` (a fresh key for the answer list).
fn push_key(out: &mut Vec<u8>, src: &[u8])
    ensures
        final(out)@ == old(out)@ + src@,
{
    crate::frame::push_bytes(out, src);
}

/// `a + b`, stopping at the top of `u64`.
pub fn saturating_add(a: u64, b: u64) -> (r: u64)
    ensures
        r == sat_add(a, b),
{
    if b > u64::MAX - a {
        u64::MAX
    } else {
        a + b
    }
}

/// `a * b`, stopping at the top of `u64`.
pub fn saturating_mul(a: u64, b: u64) -> (r: u64)
    ensures
        r == sat_mul(a, b),
{
    if a == 0 {
        proof {
            assert(a * b == 0) by (nonlinear_arith)
                requires
                    a == 0,
            ;
        }
        return 0;
    }
    if b > u64::MAX / a {
        proof {
            assert(a * b > u64::MAX) by (nonlinear_arith)
                requires
                    a >= 1,
                    b > u64::MAX / a,
                    u64::MAX / a == (u64::MAX as int) / (a as int),
            ;
        }
        u64::MAX
    } else {
        proof {
            assert(a * b <= u64::MAX) by (nonlinear_arith)
                requires
                    a >= 1,
                    b <= u64::MAX / a,
                    u64::MAX / a == (u64::MAX as int) / (a as int),
            ;
        }
        a * b
    }
}

/// `new` is `old` swept at `now`: every key whose deadline stands at or
/// before `now` is gone, every other key stays with its value and deadline
/// untouched.
pub open spec fn is_purge_of(
    new: Map<Seq<u8>, EntryView>,
    old: Map<Seq<u8>, EntryView>,
    now: u64,
) -> bool {
    &&& forall|k: Seq<u8>|
        #[trigger] new.contains_key(k) <==> old.contains_key(k) && outlives_sweep(old[k], now)
    &&& forall|k: Seq<u8>| new.contains_key(k) ==> #[trigger] new[k] == old[k]
}

/// The keyspace that loaded snapshot rows amount to. A row whose wall-clock
/// expiry has already passed at `now_wall` is dropped; one still in the
/// future lands with the monotonic deadline `now_mono` plus the time left;
/// later rows win over earlier ones with the same key.
pub open spec fn load_map(
    rows: Seq<(Seq<u8>, ValueView, Option<u64>)>,
    now_wall: u64,
    now_mono: u64,
) -> Map<Seq<u8>, EntryView>
    decreases rows.len(),
{
    if rows.len() == 0 {
        Map::empty()
    } else {
        let m = load_map(rows.drop_last(), now_wall, now_mono);
        let row = rows.last();
        match row.2 {
            Some(ts) => if ts <= now_wall {
                m
            } else {
                m.insert(
                    row.0,
                    EntryView {
                        value: row.1,
                        expires_at: Some(sat_add(now_mono, (ts - now_wall) as u64)),
                    },
                )
            },
            None => m.insert(row.0, EntryView { value: row.1, expires_at: None }),
        }
    }
}

/// Replaces the keyspace with what a loaded snapshot says: the keyspace is
/// cleared first, rows already expired on the wall clock are dropped, and
/// each surviving row lands with its deadline translated onto the monotonic
/// clock.
pub fn load_from_rdb(
    store: &mut Store,
    db: crate::rdb::RdbDatabase,
    now_wall: u64,
    now_mono: u64,
)
    requires
        old(store).wf(),
    ensures
        final(store).wf(),
        final(store)@ == load_map(crate::rdb::db_view(db.data@), now_wall, now_mono),
{
    let ghost rows = crate::rdb::db_view(db.data@);
    store.clear();
    proof {
        assert(rows.take(0) =~= Seq::<(Seq<u8>, ValueView, Option<u64>)>::empty());
    }
    let mut data = db.data;
    let ghost orig = data@;
    let mut i: usize = 0;
    while i < data.len()
        invariant
            i <= data@.len(),
            data@ == orig,
            rows == crate::rdb::db_view(orig),
            store.wf(),
            store@ == load_map(rows.take(i as int), now_wall, now_mono),
        decreases data@.len() - i,
    {
        proof {
            assert(rows.take(i + 1).drop_last() =~= rows.take(i as int));
            assert(rows.take(i + 1).last() == rows[i as int]);
        }
        let pair = &data[i];
        let has_expiry = pair.1.expiry.is_some();
        if has_expiry {
            let ts = match pair.1.expiry {
                Some(t) => t,
                None => 0,
            };
            if ts > now_wall {
                let deadline = saturating_add(now_mono, ts - now_wall);
                let mut key: Vec<u8> = Vec::new();
                crate::frame::push_bytes(&mut key, pair.0.as_slice());
                proof {
                    assert(key@ =~= pair.0@);
                }
                let value = copy_value(&pair.1.value);
                store.upsert(key, value, Some(deadline));
            }
        } else {
            let mut key: Vec<u8> = Vec::new();
            crate::frame::push_bytes(&mut key, pair.0.as_slice());
            proof {
                assert(key@ =~= pair.0@);
            }
            let value = copy_value(&pair.1.value);
            store.upsert(key, value, None);
        }
        i = i + 1;
    }
    proof {
        assert(rows.take(rows.len() as int) =~= rows);
    }
}

/// A copy of a stored value, field for field; what it says is unchanged.
fn copy_value(v: &RedisValue) -> (r: RedisValue)
    ensures
        r@ == v@,
{
    match v {
        RedisValue::String(b) => RedisValue::String(copy_bytes(b)),
        RedisValue::Integer(i) => RedisValue::Integer(*i),
        RedisValue::Float(t) => RedisValue::Float(copy_bytes(t)),
        RedisValue::Boolean(b) => RedisValue::Boolean(*b),
        RedisValue::Null => RedisValue::Null,
        RedisValue::List(items) => RedisValue::List(copy_bytes_list(items)),
        RedisValue::SetVal(items) => RedisValue::SetVal(copy_bytes_list(items)),
        RedisValue::SortedSet(pairs) => RedisValue::SortedSet(copy_bytes_pairs(pairs)),
        RedisValue::Hash(pairs) => RedisValue::Hash(copy_bytes_pairs(pairs)),
        RedisValue::Zipmap(b) => RedisValue::Zipmap(copy_bytes(b)),
        RedisValue::Ziplist(b) => RedisValue::Ziplist(copy_bytes(b)),
        RedisValue::Intset(b) => RedisValue::Intset(copy_bytes(b)),
        RedisValue::Quicklist(b) => RedisValue::Quicklist(copy_bytes(b)),
    }
}

/// A copy of a byte string.
fn copy_bytes(v: &Vec<u8>) -> (r: Vec<u8>)
    ensures
        r@ == v@,
{
    let mut out: Vec<u8> = Vec::new();
    crate::frame::push_bytes(&mut out, v.as_slice());
    proof {
        assert(out@ =~= v@);
    }
    out
}

/// A copy of a list of byte strings, with the same views.
fn copy_bytes_list(v: &Vec<Vec<u8>>) -> (r: Vec<Vec<u8>>)
    ensures
        Seq::new(r@.len(), |i: int| r@[i]@) == Seq::new(v@.len(), |i: int| v@[i]@),
{
    let mut out: Vec<Vec<u8>> = Vec::new();
    let mut i: usize = 0;
    while i < v.len()
        invariant
            i <= v@.len(),
            out@.len() == i,
            forall|j: int| 0 <= j < i ==> (#[trigger] out@[j])@ == v@[j]@,
        decreases v@.len() - i,
    {
        out.push(copy_bytes(&v[i]));
        i = i + 1;
    }
    proof {
        assert(Seq::new(out@.len(), |i: int| out@[i]@) =~= Seq::new(v@.len(), |i: int| v@[i]@));
    }
    out
}

/// A copy of a list of byte-string pairs, with the same views.
fn copy_bytes_pairs(v: &Vec<(Vec<u8>, Vec<u8>)>) -> (r: Vec<(Vec<u8>, Vec<u8>)>)
    ensures
        Seq::new(r@.len(), |i: int| (r@[i].0@, r@[i].1@)) == Seq::new(
            v@.len(),
            |i: int| (v@[i].0@, v@[i].1@),
        ),
{
    let mut out: Vec<(Vec<u8>, Vec<u8>)> = Vec::new();
    let mut i: usize = 0;
    while i < v.len()
        invariant
            i <= v@.len(),
            out@.len() == i,
            forall|j: int|
                0 <= j < i ==> (#[trigger] out@[j]).0@ == v@[j].0@ && out@[j].1@ == v@[j].1@,
        decreases v@.len() - i,
    {
        let pair = &v[i];
        out.push((copy_bytes(&pair.0), copy_bytes(&pair.1)));
        i = i + 1;
    }
    proof {
        assert(Seq::new(out@.len(), |i: int| (out@[i].0@, out@[i].1@)) =~= Seq::new(
            v@.len(),
            |i: int| (v@[i].0@, v@[i].1@),
        ));
    }
    out
}

/// After a plain `SET k v`, a `GET k` reads `v` back: storing without a time
/// to live binds the key to the value with no deadline, and such a binding
/// is live at every instant.
pub proof fn lemma_set_then_get(
    m: Map<Seq<u8>, EntryView>,
    k: Seq<u8>,
    v: Seq<u8>,
    now: u64,
    later: u64,
)
    ensures
        spec_lookup(
            m.insert(
                k,
                EntryView {
                    value: ValueView::String(v),
                    expires_at: spec_deadline(None, None, now),
                },
            ),
            k,
            later,
        ) == Some(ValueView::String(v)),
{
}

/// After `SET k v PX 1`, a read ten or more milliseconds later sees nothing:
/// the deadline stands one millisecond after the store, and a read past it
/// observes the key as absent.
pub proof fn lemma_px_expires(
    m: Map<Seq<u8>, EntryView>,
    k: Seq<u8>,
    v: Seq<u8>,
    now: u64,
    later: u64,
)
    requires
        later >= now + 10,
    ensures
        spec_lookup(
            m.insert(
                k,
                EntryView {
                    value: ValueView::String(v),
                    expires_at: spec_deadline(None, Some(1u64), now),
                },
            ),
            k,
            later,
        ) is None,
{
}

/// A later `SET k v2` without a time to live clears the deadline an earlier
/// `SET k v EX sec` installed: the key then has no deadline at all.
pub proof fn lemma_reset_clears_deadline(
    m: Map<Seq<u8>, EntryView>,
    k: Seq<u8>,
    v: Seq<u8>,
    v2: Seq<u8>,
    sec: u64,
    now: u64,
    now2: u64,
)
    ensures
        m.insert(
            k,
            EntryView {
                value: ValueView::String(v),
                expires_at: spec_deadline(Some(sec), None, now),
            },
        ).insert(
            k,
            EntryView { value: ValueView::String(v2), expires_at: spec_deadline(None, None, now2) },
        )[k].expires_at is None,
{
}

/// When a slot of a row with distinct keys is replaced by one carrying the
/// same key, the mapping is the old mapping with that key re-bound.
proof fn lemma_entries_map_update(pre: Seq<Entry>, i: int, e: Entry)
    requires
        0 <= i < pre.len(),
        forall|a: int, b: int| 0 <= a < b < pre.len() ==> pre[a].key@ != pre[b].key@,
        e.key@ == pre[i].key@,
    ensures
        entries_map(pre.update(i, e)) == entries_map(pre).insert(e.key@, e.entry_view()),
        forall|a: int, b: int|
            0 <= a < b < pre.update(i, e).len() ==> pre.update(i, e)[a].key@ != pre.update(
                i,
                e,
            )[b].key@,
{
    let post = pre.update(i, e);
    lemma_entries_map(pre);
    lemma_entries_map(post);
    assert forall|a: int, b: int| 0 <= a < b < post.len() implies post[a].key@ != post[b].key@ by {
        assert(pre[a].key@ != pre[b].key@);
    }
    assert forall|k: Seq<u8>| true implies #[trigger] entries_map(post).contains_key(k)
        == entries_map(pre).insert(e.key@, e.entry_view()).contains_key(k) by {
        if entries_map(post).contains_key(k) {
            let a = choose|a: int| 0 <= a < post.len() && post[a].key@ == k;
            assert(pre[a].key@ == k || k == e.key@);
        }
        if entries_map(pre).insert(e.key@, e.entry_view()).contains_key(k) {
            if k == e.key@ {
                assert(post[i].key@ == k);
            } else {
                let a = choose|a: int| 0 <= a < pre.len() && pre[a].key@ == k;
                assert(post[a].key@ == k);
            }
        }
    }
    assert forall|k: Seq<u8>| #[trigger]
        entries_map(post).contains_key(k) implies entries_map(post)[k] == entries_map(pre).insert(
        e.key@,
        e.entry_view(),
    )[k] by {
        if k == e.key@ {
            assert(post[i].key@ == k);
            assert(entries_map(post)[k] == post[i].entry_view());
        } else {
            let a = choose|a: int| 0 <= a < post.len() && post[a].key@ == k;
            assert(a != i);
            assert(pre[a].key@ == k);
            assert(entries_map(post)[k] == post[a].entry_view());
            assert(entries_map(pre)[k] == pre[a].entry_view());
        }
    }
    assert(entries_map(post) =~= entries_map(pre).insert(e.key@, e.entry_view()));
}

} // verus!
