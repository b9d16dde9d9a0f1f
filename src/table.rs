use vstd::hash_map::StringHashMap;
use vstd::prelude::*;

verus! {

/// The prefix that marks an IPv4-mapped IPv6 address.
pub open spec fn mapped_prefix() -> Seq<char> {
    seq![':', ':', 'f', 'f', 'f', 'f', ':']
}

/// An address with one leading `::ffff:` taken off, if it has one.
pub open spec fn normalize(s: Seq<char>) -> Seq<char> {
    if s.len() >= 7 && s.subrange(0, 7) == mapped_prefix() {
        s.subrange(7, s.len() as int)
    } else {
        s
    }
}

/// How often `k` has been counted in `m`.
pub open spec fn count_in(m: Map<Seq<char>, nat>, k: Seq<char>) -> nat {
    if m.contains_key(k) {
        m[k]
    } else {
        0
    }
}

/// `m` with one more occurrence of `k`.
pub open spec fn bump(m: Map<Seq<char>, nat>, k: Seq<char>) -> Map<Seq<char>, nat> {
    m.insert(k, count_in(m, k) + 1)
}

/// Why a line could not be tallied.
#[derive(Debug, Clone, PartialEq, Eq)]
pub enum ScanError {
    /// Strict mode met a line from which no address could be taken.
    NoAddress { line: String },
    /// The address has already been counted `u32::MAX` times.
    CountOverflow { address: String },
}

/// Occurrence counts per normalized address, in the order of first appearance.
pub struct FrequencyTable {
    keys: Vec<String>,
    counts: Vec<u32>,
    index: StringHashMap<usize>,
}

impl FrequencyTable {
    /// The entries as (address, count), in the order in which the addresses first came.
    pub closed spec fn entries(&self) -> Seq<(Seq<char>, u32)> {
        Seq::new(self.keys@.len(), |i: int| (self.keys@[i]@, self.counts@[i]))
    }

    /// The table as a mapping from address to count.
    pub closed spec fn counts_map(&self) -> Map<Seq<char>, nat> {
        Map::new(
            |k: Seq<char>| self.index@.contains_key(k),
            |k: Seq<char>| self.counts@[self.index@[k] as int] as nat,
        )
    }

    pub closed spec fn wf(&self) -> bool {
        &&& self.keys@.len() == self.counts@.len()
        &&& forall|i: int| 0 <= i < self.keys@.len() ==> (#[trigger] self.keys@[i])@.len() > 0
        &&& forall|i: int|
            0 <= i < self.keys@.len() ==> #[trigger] self.index@.contains_key(self.keys@[i]@)
                && self.index@[self.keys@[i]@] == i
        &&& forall|k: Seq<char>| #[trigger]
            self.index@.contains_key(k) ==> (self.index@[k] as int) < self.keys@.len()
                && self.keys@[self.index@[k] as int]@ == k
    }

    /// The mapping holds exactly the addresses of the entries, each with its entry's count.
    pub proof fn lemma_entries_counts(&self)
        requires
            self.wf(),
        ensures
            forall|i: int|
                0 <= i < self.entries().len() ==> #[trigger] self.counts_map().contains_key(
                    self.entries()[i].0,
                ) && self.counts_map()[self.entries()[i].0] == self.entries()[i].1 as nat,
            forall|k: Seq<char>| #[trigger]
                self.counts_map().contains_key(k) ==> exists|i: int|
                    0 <= i < self.entries().len() && self.entries()[i].0 == k,
    {
        assert forall|k: Seq<char>| #[trigger]
            self.counts_map().contains_key(k) implies exists|i: int|
                0 <= i < self.entries().len() && self.entries()[i].0 == k by {
            let i = self.index@[k] as int;
            assert(self.entries()[i].0 == k);
        }
    }

    /// Each address has one entry, and none is empty.
    pub proof fn lemma_keys_distinct_nonempty(&self)
        requires
            self.wf(),
        ensures
            forall|i: int, j: int|
                0 <= i < self.entries().len() && 0 <= j < self.entries().len()
                    && self.entries()[i].0 == self.entries()[j].0 ==> i == j,
            forall|i: int| 0 <= i < self.entries().len() ==> (#[trigger] self.entries()[i]).0.len() > 0,
    {
        assert forall|i: int| 0 <= i < self.entries().len() implies (#[trigger] self.entries()[i]).0.len() > 0 by {
            assert(self.keys@[i]@.len() > 0);
        }
        assert forall|i: int, j: int|
            0 <= i < self.entries().len() && 0 <= j < self.entries().len()
                && self.entries()[i].0 == self.entries()[j].0 implies i == j by {
            assert(self.index@.contains_key(self.keys@[i]@));
            assert(self.index@.contains_key(self.keys@[j]@));
        }
    }

    /// An empty table.
    pub fn new() -> (t: Self)
        ensures
            t.wf(),
            t.entries() == Seq::<(Seq<char>, u32)>::empty(),
            t.counts_map() == Map::<Seq<char>, nat>::empty(),
    {
        broadcast use vstd::hash_map::group_hash_map_axioms;

        let t = FrequencyTable { keys: Vec::new(), counts: Vec::new(), index: StringHashMap::new() };
        assert(t.counts_map() =~= Map::<Seq<char>, nat>::empty());
        t
    }

    /// The number of distinct addresses.
    pub fn len(&self) -> (n: usize)
        requires
            self.wf(),
        ensures
            n == self.entries().len(),
    {
        self.keys.len()
    }

    /// The address and count at position `i` of the order of first appearance.
    pub fn entry(&self, i: usize) -> (r: (&String, u32))
        requires
            self.wf(),
            i < self.entries().len(),
        ensures
            r.0@ == self.entries()[i as int].0,
            r.1 == self.entries()[i as int].1,
    {
        (&self.keys[i], self.counts[i])
    }

    /// How often `address` has been counted: zero if never.
    pub fn count(&self, address: &str) -> (c: u32)
        requires
            self.wf(),
        ensures
            c as nat == count_in(self.counts_map(), address@),
    {
        match self.index.get(address) {
            Some(i) => self.counts[*i],
            None => 0,
        }
    }

    /// Counts one occurrence of `candidate`, stored under its normalized form; a candidate
    /// that normalizes to nothing is not counted.
    pub fn record(&mut self, candidate: &str) -> (r: Result<(), ScanError>)
        requires
            old(self).wf(),
        ensures
            final(self).wf(),
            ({
                let k = normalize(candidate@);
                if k.len() == 0 {
                    &&& r is Ok
                    &&& final(self).entries() == old(self).entries()
                    &&& final(self).counts_map() == old(self).counts_map()
                } else if count_in(old(self).counts_map(), k) < u32::MAX {
                    &&& r is Ok
                    &&& final(self).counts_map() == bump(old(self).counts_map(), k)
                    &&& final(self).entries().len() == old(self).entries().len() + if old(
                        self,
                    ).counts_map().contains_key(k) {
                        0int
                    } else {
                        1int
                    }
                    &&& forall|i: int|
                        0 <= i < old(self).entries().len() ==> #[trigger] final(self).entries()[i].0
                            == old(self).entries()[i].0
                } else {
                    &&& r matches Err(ScanError::CountOverflow { address }) && address@ == k
                    &&& final(self).entries() == old(self).entries()
                    &&& final(self).counts_map() == old(self).counts_map()
                }
            }),
    {
        let key = normalize_address(candidate);
        if key.as_str().unicode_len() == 0 {
            return Ok(());
        }
        let found = match self.index.get(key.as_str()) {
            Some(i) => Some(*i),
            None => None,
        };
        match found {
            Some(i) => {
                let c = self.counts[i];
                if c == u32::MAX {
                    return Err(ScanError::CountOverflow { address: key });
                }
                self.counts.set(i, c + 1);
                proof {
                    let ghost o = old(self);
                    assert forall|k: Seq<char>| #[trigger]
                        self.index@.contains_key(k) implies self.counts@[self.index@[k] as int] as nat
                        == bump(o.counts_map(), key@)[k] by {
                        if k != key@ {
                            assert(self.keys@[self.index@[k] as int]@ == k);
                            assert(self.index@[k] != i);
                        }
                    }
                    assert(self.counts_map() =~= bump(o.counts_map(), key@));
                }
                Ok(())
            },
            None => {
                let n = self.keys.len();
                let ghost o = *old(self);
                self.index.insert(key.clone(), n);
                self.keys.push(key);
                self.counts.push(1);
                proof {
                    assert(self.keys@[n as int]@ == key@);
                    assert forall|j: int|
                        0 <= j < self.keys@.len() implies #[trigger] self.index@.contains_key(
                            self.keys@[j]@,
                        ) && self.index@[self.keys@[j]@] == j by {
                        if j < n {
                            assert(o.index@.contains_key(o.keys@[j]@));
                        }
                    }
                    assert(self.counts_map() =~= bump(o.counts_map(), key@));
                    assert forall|j: int|
                        0 <= j < o.entries().len() implies #[trigger] self.entries()[j].0
                        == o.entries()[j].0 by {
                        assert(self.keys@[j] == o.keys@[j]);
                    }
                }
                Ok(())
            },
        }
    }
}

/// Takes one leading `::ffff:` off an address, if it has one.
pub fn normalize_address(s: &str) -> (r: String)
    ensures
        r@ == normalize(s@),
{
    broadcast use vstd::string::group_string_axioms;

    let n = s.unicode_len();
    let prefix = "::ffff:";
    proof {
        reveal_strlit("::ffff:");
        assert(prefix@ == mapped_prefix());
    }
    if n < 7 {
        return s.to_string();
    }
    let mut i: usize = 0;
    while i < 7
        invariant
            i <= 7 <= n,
            n == s@.len(),
            prefix@ == mapped_prefix(),
            forall|j: int| 0 <= j < i ==> s@[j] == prefix@[j],
        decreases 7 - i,
    {
        if s.get_char(i) != prefix.get_char(i) {
            assert(s@.subrange(0, 7)[i as int] != mapped_prefix()[i as int]);
            return s.to_string();
        }
        i = i + 1;
    }
    assert(s@.subrange(0, 7) =~= mapped_prefix());
    s.substring_char(7, n).to_string()
}

} // verus!
