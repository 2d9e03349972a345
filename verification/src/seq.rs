//! Validated marker sequences and the one-mismatch lookup table.
//!
//! A [`Sequence`] is a byte string over the alphabet `{A, C, G, T, N}`,
//! upper-cased on construction. A [`SequenceTable`] maps byte windows to a
//! [`SequenceLookup`] classification: exact match, single-substitution match,
//! ambiguous, or no match.

use vstd::prelude::*;
use vstd::string::StrSliceExecFns;
use vstd::string::StringExecFnsIsAscii;

verus! {

/// Why a whitelist could not be turned into a table.
#[derive(Clone, Copy, Debug, PartialEq, Eq, Structural)]
pub enum WhitelistError {
    /// A marker held a character outside `{A, C, G, T, N}` (case-insensitive
    /// ASCII).
    InvalidSequence,
    /// The whitelist held no markers at all.
    EmptyTable,
}

/// Upper-cases an ASCII letter byte; any other byte is unchanged.
pub open spec fn to_upper(b: u8) -> u8 {
    if 97 <= b <= 122 {
        (b - 32) as u8
    } else {
        b
    }
}

/// The five symbols of the marker alphabet.
pub open spec fn is_base(b: u8) -> bool {
    b == 65 || b == 67 || b == 71 || b == 84 || b == 78
}

/// The bytes of an ASCII character sequence.
pub open spec fn char_bytes(s: Seq<char>) -> Seq<u8> {
    s.map_values(|c: char| c as u8)
}

/// The canonical byte form of a raw marker string: its ASCII bytes,
/// upper-cased.
pub open spec fn canon(s: Seq<char>) -> Seq<u8> {
    char_bytes(s).map_values(|b: u8| to_upper(b))
}

/// Every byte is an alphabet symbol.
pub open spec fn all_bases(s: Seq<u8>) -> bool {
    forall|i: int| 0 <= i < s.len() ==> is_base(#[trigger] s[i])
}

/// A raw marker string is accepted when it is ASCII and, after upper-casing,
/// every character is an alphabet symbol.
pub open spec fn is_valid_marker(s: Seq<char>) -> bool {
    vstd::utf8::is_ascii_chars(s) && all_bases(canon(s))
}

/// A validated marker or window key: bytes over `{A, C, G, T, N}`.
#[derive(Clone, Debug, PartialEq, Eq, Hash)]
pub struct Sequence {
    pub seq: Vec<u8>,
}

impl Sequence {
    /// Validates and normalizes a raw marker string.
    ///
    /// Succeeds exactly on ASCII strings whose characters, upper-cased, all
    /// lie in `{A, C, G, T, N}`; the result holds the upper-cased bytes.
    pub fn new(seq: String) -> (r: Result<Self, WhitelistError>)
        ensures
            r is Ok <==> is_valid_marker(seq@),
            r matches Ok(s) ==> s.seq@ == canon(seq@) && all_bases(s.seq@),
            r is Err ==> r == Err::<Self, WhitelistError>(WhitelistError::InvalidSequence),
    {
        if !seq.is_ascii() {
            return Err(WhitelistError::InvalidSequence);
        }
        let s = seq.as_str();
        let bytes = s.as_bytes_vec();
        proof {
            vstd::string::is_ascii_spec_bytes(s);
            assert(bytes@ =~= char_bytes(seq@));
        }
        let mut out: Vec<u8> = Vec::new();
        let mut i: usize = 0;
        while i < bytes.len()
            invariant
                i <= bytes.len(),
                bytes@ == char_bytes(seq@),
                vstd::utf8::is_ascii_chars(seq@),
                out@ =~= canon(seq@).take(i as int),
                all_bases(out@),
            decreases bytes.len() - i,
        {
            let b = bytes[i];
            let u = if 97 <= b && b <= 122 {
                b - 32
            } else {
                b
            };
            assert(u == canon(seq@)[i as int]);
            if !(u == 65 || u == 67 || u == 71 || u == 84 || u == 78) {
                assert(!all_bases(canon(seq@)));
                return Err(WhitelistError::InvalidSequence);
            }
            out.push(u);
            i += 1;
        }
        proof {
            assert(out@ =~= canon(seq@));
        }
        Ok(Sequence { seq: out })
    }

    /// The number of symbols in the sequence.
    pub fn len(&self) -> (n: usize)
        ensures
            n == self.seq@.len(),
    {
        self.seq.len()
    }
}

/// Spec-level form of a window classification, over character sequences.
pub ghost enum LookupSpec {
    Exact(Seq<char>),
    ErrorOf(Seq<char>),
    Ambiguous,
    NoMatch,
}

/// How a byte window relates to the whitelist markers.
#[derive(Debug, Clone, PartialEq, Eq)]
pub enum SequenceLookup {
    /// Equal to a marker; holds the marker's label.
    Exact(String),
    /// Exactly one substitution away from exactly one marker.
    ErrorOf(String),
    /// One substitution away from two or more different markers.
    Ambiguous,
    /// Absent from the table.
    NoMatch,
}

impl View for SequenceLookup {
    type V = LookupSpec;

    open spec fn view(&self) -> LookupSpec {
        match self {
            SequenceLookup::Exact(s) => LookupSpec::Exact(s@),
            SequenceLookup::ErrorOf(s) => LookupSpec::ErrorOf(s@),
            SequenceLookup::Ambiguous => LookupSpec::Ambiguous,
            SequenceLookup::NoMatch => LookupSpec::NoMatch,
        }
    }
}

impl SequenceLookup {
    /// An owned copy with the same view.
    pub(crate) fn duplicate(&self) -> (r: Self)
        ensures
            r@ == self@,
    {
        match self {
            SequenceLookup::Exact(s) => SequenceLookup::Exact(s.clone()),
            SequenceLookup::ErrorOf(s) => SequenceLookup::ErrorOf(s.clone()),
            SequenceLookup::Ambiguous => SequenceLookup::Ambiguous,
            SequenceLookup::NoMatch => SequenceLookup::NoMatch,
        }
    }
}

/// `k` agrees with `m` everywhere except at position `i`.
pub open spec fn differs_only_at(k: Seq<u8>, m: Seq<u8>, i: int) -> bool {
    &&& k.len() == m.len()
    &&& 0 <= i < m.len()
    &&& k[i] != m[i]
    &&& forall|j: int| 0 <= j < m.len() && j != i ==> k[j] == m[j]
}

/// `k` is one substitution away from `m`, with the substituted symbol drawn
/// from the alphabet.
pub open spec fn is_one_sub_neighbor(k: Seq<u8>, m: Seq<u8>) -> bool {
    exists|i: int| differs_only_at(k, m, i) && is_base(k[i])
}

/// The classification a neighbor key receives when a marker named `name` is
/// entered over a table that previously mapped the key as `m` says: absent
/// keys become `ErrorOf`, `ErrorOf` keys become `Ambiguous`, and `Exact` or
/// `Ambiguous` keys are untouched.
pub open spec fn neighbor_entry(
    m: Map<Seq<u8>, LookupSpec>,
    k: Seq<u8>,
    name: Seq<char>,
) -> LookupSpec {
    if m.contains_key(k) {
        if m[k] is ErrorOf {
            LookupSpec::Ambiguous
        } else {
            m[k]
        }
    } else {
        LookupSpec::ErrorOf(name)
    }
}

/// The table map after the marker `marker`, labelled `name`, is entered:
/// the marker's own key becomes `Exact`, and every one-substitution neighbor
/// key is updated as [`neighbor_entry`] says.
pub open spec fn table_add(
    m: Map<Seq<u8>, LookupSpec>,
    marker: Seq<u8>,
    name: Seq<char>,
) -> Map<Seq<u8>, LookupSpec> {
    Map::new(
        |k: Seq<u8>| k == marker || is_one_sub_neighbor(k, marker) || m.contains_key(k),
        |k: Seq<u8>|
            if k == marker {
                LookupSpec::Exact(name)
            } else if is_one_sub_neighbor(k, marker) {
                neighbor_entry(m, k, name)
            } else {
                m[k]
            },
    )
}

/// What a lookup of key `k` in table map `m` returns: the stored
/// classification, or `NoMatch` when the key is absent.
pub open spec fn lookup_spec(m: Map<Seq<u8>, LookupSpec>, k: Seq<u8>) -> LookupSpec {
    if m.contains_key(k) {
        m[k]
    } else {
        LookupSpec::NoMatch
    }
}

/// True when two byte slices hold the same bytes.
fn bytes_eq(a: &[u8], b: &[u8]) -> (r: bool)
    ensures
        r == (a@ == b@),
{
    if a.len() != b.len() {
        return false;
    }
    let mut i: usize = 0;
    while i < a.len()
        invariant
            i <= a.len(),
            a@.len() == b@.len(),
            forall|j: int| 0 <= j < i ==> a@[j] == b@[j],
        decreases a.len() - i,
    {
        if a[i] != b[i] {
            return false;
        }
        i += 1;
    }
    proof {
        assert(a@ =~= b@);
    }
    true
}

/// The one-mismatch lookup table: an association list from window keys to
/// classifications, with pairwise distinct keys, plus the common key length.
#[derive(Clone, Debug)]
pub struct SequenceTable {
    pub all_whitelist_combinations: Vec<(Sequence, SequenceLookup)>,
    /// Length shared by every key once the table is built from a whitelist.
    pub min_length: usize,
}

impl View for SequenceTable {
    type V = Map<Seq<u8>, LookupSpec>;

    open spec fn view(&self) -> Map<Seq<u8>, LookupSpec> {
        Map::new(
            |k: Seq<u8>| exists|i: int|
                0 <= i < self.all_whitelist_combinations@.len()
                    && #[trigger] self.all_whitelist_combinations@[i].0.seq@ == k,
            |k: Seq<u8>| {
                let i = choose|i: int|
                    0 <= i < self.all_whitelist_combinations@.len()
                        && #[trigger] self.all_whitelist_combinations@[i].0.seq@ == k;
                self.all_whitelist_combinations@[i].1@
            },
        )
    }
}

impl Default for SequenceTable {
    /// An empty table.
    fn default() -> (r: Self)
        ensures
            r.wf(),
            r@ == Map::<Seq<u8>, LookupSpec>::empty(),
            r.all_whitelist_combinations@.len() == 0,
            r.min_length == 0,
    {
        let r = SequenceTable { all_whitelist_combinations: Vec::new(), min_length: 0 };
        proof {
            assert(r@ =~= Map::<Seq<u8>, LookupSpec>::empty());
        }
        r
    }
}

impl SequenceTable {
    /// Entry keys are pairwise distinct, so the association list denotes a
    /// map.
    pub open spec fn wf(&self) -> bool {
        forall|i: int, j: int|
            0 <= i < j < self.all_whitelist_combinations@.len()
                ==> #[trigger] self.all_whitelist_combinations@[i].0.seq@
                    != #[trigger] self.all_whitelist_combinations@[j].0.seq@
    }

    /// Every key has the table's common length.
    pub open spec fn trimmed(&self) -> bool {
        forall|k: Seq<u8>| #[trigger] self@.contains_key(k) ==> k.len() == self.min_length
    }

    /// The index of the entry holding `key`, if any.
    fn find(&self, key: &[u8]) -> (r: Option<usize>)
        ensures
            match r {
                Some(i) => i < self.all_whitelist_combinations@.len()
                    && self.all_whitelist_combinations@[i as int].0.seq@ == key@,
                None => !self@.contains_key(key@),
            },
    {
        let n = self.all_whitelist_combinations.len();
        let mut i: usize = 0;
        while i < n
            invariant
                i <= n,
                n == self.all_whitelist_combinations@.len(),
                forall|j: int| 0 <= j < i
                    ==> #[trigger] self.all_whitelist_combinations@[j].0.seq@ != key@,
            decreases n - i,
        {
            if bytes_eq(self.all_whitelist_combinations[i].0.seq.as_slice(), key) {
                return Some(i);
            }
            i += 1;
        }
        None
    }

    /// Inserts or overwrites the entry for `key`.
    pub(crate) fn insert(&mut self, key: Sequence, value: SequenceLookup)
        requires
            old(self).wf(),
        ensures
            final(self).wf(),
            final(self)@ == old(self)@.insert(key.seq@, value@),
            final(self).min_length == old(self).min_length,
            final(self).all_whitelist_combinations@.len()
                == old(self).all_whitelist_combinations@.len()
                    + if old(self)@.contains_key(key.seq@) { 0int } else { 1int },
    {
        let ghost k = key.seq@;
        match self.find(key.seq.as_slice()) {
            Some(i) => {
                proof {
                    lemma_entry_view(*self, i as int);
                }
                self.all_whitelist_combinations[i] = (key, value);
                proof {
                    assert forall|i2: int, j2: int|
                        0 <= i2 < j2 < self.all_whitelist_combinations@.len() implies
                        self.all_whitelist_combinations@[i2].0.seq@
                            != self.all_whitelist_combinations@[j2].0.seq@ by {
                        assert(old(self).all_whitelist_combinations@[i2].0.seq@
                            != old(self).all_whitelist_combinations@[j2].0.seq@);
                    }
                    assert forall|k2: Seq<u8>| #[trigger] self@.contains_key(k2)
                        == old(self)@.insert(k, value@).contains_key(k2) by {
                        if k2 == k {
                            assert(self.all_whitelist_combinations@[i as int].0.seq@ == k2);
                        } else {
                            if self@.contains_key(k2) {
                                let j = choose|j: int|
                                    0 <= j < self.all_whitelist_combinations@.len()
                                        && #[trigger] self.all_whitelist_combinations@[j].0.seq@
                                            == k2;
                                assert(old(self).all_whitelist_combinations@[j].0.seq@ == k2);
                            }
                            if old(self)@.contains_key(k2) {
                                let j = choose|j: int|
                                    0 <= j < old(self).all_whitelist_combinations@.len()
                                        && #[trigger] old(self).all_whitelist_combinations@[j].0.seq@
                                            == k2;
                                assert(j != i);
                                assert(self.all_whitelist_combinations@[j].0.seq@ == k2);
                            }
                        }
                    }
                    assert forall|k2: Seq<u8>| self@.contains_key(k2) implies #[trigger] self@[k2]
                        == old(self)@.insert(k, value@)[k2] by {
                        let j = choose|j: int|
                            0 <= j < self.all_whitelist_combinations@.len()
                                && #[trigger] self.all_whitelist_combinations@[j].0.seq@ == k2;
                        lemma_entry_view(*self, j);
                        if k2 == k {
                            assert(j == i) by {
                                if j != i {
                                    assert(self.all_whitelist_combinations@[j].0.seq@
                                        == self.all_whitelist_combinations@[i as int].0.seq@);
                                }
                            }
                        } else {
                            assert(j != i);
                            lemma_entry_view(*old(self), j);
                        }
                    }
                    assert(self@ =~= old(self)@.insert(k, value@));
                }
            },
            None => {
                self.all_whitelist_combinations.push((key, value));
                proof {
                    let n = old(self).all_whitelist_combinations@.len() as int;
                    assert forall|i2: int, j2: int|
                        0 <= i2 < j2 < self.all_whitelist_combinations@.len() implies
                        self.all_whitelist_combinations@[i2].0.seq@
                            != self.all_whitelist_combinations@[j2].0.seq@ by {
                        if j2 < n {
                            assert(old(self).all_whitelist_combinations@[i2].0.seq@
                                != old(self).all_whitelist_combinations@[j2].0.seq@);
                        } else {
                            if self.all_whitelist_combinations@[i2].0.seq@ == k {
                                assert(old(self)@.contains_key(k));
                            }
                        }
                    }
                    assert forall|k2: Seq<u8>| #[trigger] self@.contains_key(k2)
                        == old(self)@.insert(k, value@).contains_key(k2) by {
                        if k2 == k {
                            assert(self.all_whitelist_combinations@[n].0.seq@ == k2);
                        } else {
                            if self@.contains_key(k2) {
                                let j = choose|j: int|
                                    0 <= j < self.all_whitelist_combinations@.len()
                                        && #[trigger] self.all_whitelist_combinations@[j].0.seq@
                                            == k2;
                                assert(j < n);
                                assert(old(self).all_whitelist_combinations@[j].0.seq@ == k2);
                            }
                            if old(self)@.contains_key(k2) {
                                let j = choose|j: int|
                                    0 <= j < old(self).all_whitelist_combinations@.len()
                                        && #[trigger] old(self).all_whitelist_combinations@[j].0.seq@
                                            == k2;
                                assert(self.all_whitelist_combinations@[j].0.seq@ == k2);
                            }
                        }
                    }
                    assert forall|k2: Seq<u8>| self@.contains_key(k2) implies #[trigger] self@[k2]
                        == old(self)@.insert(k, value@)[k2] by {
                        let j = choose|j: int|
                            0 <= j < self.all_whitelist_combinations@.len()
                                && #[trigger] self.all_whitelist_combinations@[j].0.seq@ == k2;
                        lemma_entry_view(*self, j);
                        if k2 == k {
                            assert(j == n) by {
                                if j != n {
                                    assert(old(self).all_whitelist_combinations@[j].0.seq@ == k2);
                                    assert(old(self)@.contains_key(k));
                                }
                            }
                        } else {
                            assert(j != n);
                            assert(old(self).all_whitelist_combinations@[j].0.seq@ == k2);
                            lemma_entry_view(*old(self), j);
                        }
                    }
                    assert(self@ =~= old(self)@.insert(k, value@));
                }
            },
        }
    }

    /// Classifies a byte window: the stored entry, or `NoMatch` when the
    /// window is not a key of the table.
    pub fn lookup(&self, seq: &[u8]) -> (r: SequenceLookup)
        requires
            self.wf(),
        ensures
            r@ == lookup_spec(self@, seq@),
    {
        match self.find(seq) {
            Some(i) => {
                proof {
                    lemma_entry_view(*self, i as int);
                }
                self.all_whitelist_combinations[i].1.duplicate()
            },
            None => SequenceLookup::NoMatch,
        }
    }

    /// True when `key` is a key of the table.
    pub fn contains_key(&self, key: &Sequence) -> (r: bool)
        ensures
            r == self@.contains_key(key.seq@),
    {
        match self.find(key.seq.as_slice()) {
            Some(i) => {
                proof {
                    let j = i as int;
                    assert(self.all_whitelist_combinations@[j].0.seq@ == key.seq@);
                }
                true
            },
            None => false,
        }
    }
}

/// The marker alphabet, in the order neighbors are enumerated.
pub open spec fn base_seq() -> Seq<u8> {
    seq![65u8, 67u8, 71u8, 84u8, 78u8]
}

/// How many of the first `n` alphabet symbols differ from `b`.
spec fn alt_count(b: u8, n: int) -> int
    decreases n,
{
    if n <= 0 {
        0
    } else {
        alt_count(b, n - 1) + if base_seq()[n - 1] != b {
            1int
        } else {
            0int
        }
    }
}

/// All four substitutions of an alphabet symbol are counted once the five
/// alphabet symbols have been enumerated.
proof fn lemma_alt_count_full(b: u8)
    requires
        is_base(b),
    ensures
        alt_count(b, 5) == 4,
{
    assert(base_seq()[0] == 65 && base_seq()[1] == 67 && base_seq()[2] == 71 && base_seq()[3]
        == 84 && base_seq()[4] == 78);
    assert(alt_count(b, 0) == 0);
    assert(alt_count(b, 1) == alt_count(b, 0) + if base_seq()[0] != b {
        1int
    } else {
        0int
    });
    assert(alt_count(b, 2) == alt_count(b, 1) + if base_seq()[1] != b {
        1int
    } else {
        0int
    });
    assert(alt_count(b, 3) == alt_count(b, 2) + if base_seq()[2] != b {
        1int
    } else {
        0int
    });
    assert(alt_count(b, 4) == alt_count(b, 3) + if base_seq()[3] != b {
        1int
    } else {
        0int
    });
    assert(alt_count(b, 5) == alt_count(b, 4) + if base_seq()[4] != b {
        1int
    } else {
        0int
    });
}

/// `k` arises from `m` by substituting the `b2`th alphabet symbol at
/// position `i2`, where that symbol differs from the marker's own.
spec fn neighbor_pair(k: Seq<u8>, m: Seq<u8>, i2: int, b2: int) -> bool {
    &&& 0 <= i2 < m.len()
    &&& 0 <= b2 < 5
    &&& base_seq()[b2] != m[i2]
    &&& k == m.update(i2, base_seq()[b2])
}

/// `k` is a neighbor key generated before the enumeration reached position
/// `i`, symbol `bi`.
spec fn processed_neighbor(k: Seq<u8>, m: Seq<u8>, i: int, bi: int) -> bool {
    exists|i2: int, b2: int|
        #[trigger] neighbor_pair(k, m, i2, b2) && (i2 < i || (i2 == i && b2 < bi))
}

/// Two distinct substitutions of `m` give distinct sequences.
proof fn lemma_update_distinct(m: Seq<u8>, i1: int, b1: u8, i2: int, b2: u8)
    requires
        0 <= i1 < m.len(),
        0 <= i2 < m.len(),
        b1 != m[i1],
        b2 != m[i2],
        i1 != i2 || b1 != b2,
    ensures
        m.update(i1, b1) != m.update(i2, b2),
{
    if i1 == i2 {
        assert(m.update(i1, b1)[i1] == b1);
        assert(m.update(i2, b2)[i1] == b2);
    } else {
        assert(m.update(i1, b1)[i2] == m[i2]);
        assert(m.update(i2, b2)[i2] == b2);
    }
}

/// A substitution of `m` differs from `m`.
proof fn lemma_update_ne(m: Seq<u8>, i: int, b: u8)
    requires
        0 <= i < m.len(),
        b != m[i],
    ensures
        m.update(i, b) != m,
{
    assert(m.update(i, b)[i] == b);
}

/// The one-substitution neighbors are exactly the sequences some
/// enumeration pair generates.
proof fn lemma_neighbor_pair_iff(k: Seq<u8>, m: Seq<u8>)
    ensures
        is_one_sub_neighbor(k, m) <==> exists|i2: int, b2: int| #[trigger] neighbor_pair(
            k,
            m,
            i2,
            b2,
        ),
{
    assert(base_seq()[0] == 65 && base_seq()[1] == 67 && base_seq()[2] == 71 && base_seq()[3]
        == 84 && base_seq()[4] == 78);
    if is_one_sub_neighbor(k, m) {
        let i = choose|i: int| differs_only_at(k, m, i) && is_base(k[i]);
        let b = k[i];
        let b2: int = if b == 65 {
            0
        } else if b == 67 {
            1
        } else if b == 71 {
            2
        } else if b == 84 {
            3
        } else {
            4
        };
        assert(base_seq()[b2] == b);
        assert(k =~= m.update(i, base_seq()[b2]));
        assert(neighbor_pair(k, m, i, b2));
    }
    if exists|i2: int, b2: int| #[trigger] neighbor_pair(k, m, i2, b2) {
        let (i2, b2) = choose|i2: int, b2: int| #[trigger] neighbor_pair(k, m, i2, b2);
        assert(k[i2] == base_seq()[b2]);
        assert(is_base(k[i2]));
        assert(differs_only_at(k, m, i2));
    }
}

impl SequenceTable {
    /// Enters one marker and all its one-substitution neighbors.
    ///
    /// The marker's own key is set to `Exact(name)` unconditionally; each
    /// neighbor key is inserted as `ErrorOf(name)` when absent, upgraded to
    /// `Ambiguous` when it already held an `ErrorOf`, and left untouched when
    /// it held an `Exact` or `Ambiguous`. Entering one marker into an empty
    /// table stores exactly `1 + 4 * L` entries for a marker of length `L`.
    pub fn add_seq(&mut self, refseq: &Sequence, name: &str)
        requires
            old(self).wf(),
            all_bases(refseq.seq@),
        ensures
            final(self).wf(),
            final(self)@ == table_add(old(self)@, refseq.seq@, name@),
            final(self).min_length == old(self).min_length,
            old(self)@ == Map::<Seq<u8>, LookupSpec>::empty()
                ==> final(self).all_whitelist_combinations@.len() == 1 + 4 * refseq.seq@.len(),
    {
        let ghost m = refseq.seq@;
        let ghost orig = old(self)@;
        proof {
            if orig == Map::<Seq<u8>, LookupSpec>::empty()
                && old(self).all_whitelist_combinations@.len() > 0 {
                assert(orig.contains_key(old(self).all_whitelist_combinations@[0].0.seq@));
            }
        }
        let key = Sequence { seq: refseq.seq.clone() };
        proof {
            assert(key.seq@ =~= m);
        }
        self.insert(key, SequenceLookup::Exact(name.to_owned()));
        let ghost m0 = self@;
        let ghost mut cnt: int = 0;
        let m_len = refseq.seq.len();
        let mut i: usize = 0;
        while i < m_len
            invariant
                self.wf(),
                i <= m_len,
                m_len == m.len(),
                m == refseq.seq@,
                all_bases(m),
                self.min_length == old(self).min_length,
                m0 == orig.insert(m, LookupSpec::Exact(name@)),
                forall|k: Seq<u8>| #[trigger] processed_neighbor(k, m, i as int, 0)
                    ==> self@.contains_key(k) && self@[k] == neighbor_entry(m0, k, name@),
                forall|k: Seq<u8>| !(#[trigger] processed_neighbor(k, m, i as int, 0)) ==> (
                (self@.contains_key(k) <==> m0.contains_key(k)) && (m0.contains_key(k)
                    ==> self@[k] == m0[k])),
                orig == Map::<Seq<u8>, LookupSpec>::empty()
                    ==> self.all_whitelist_combinations@.len() == 1 + cnt,
                cnt == 4 * i,
            decreases m_len - i,
        {
            let mut bi: usize = 0;
            while bi < 5
                invariant
                    self.wf(),
                    i < m_len,
                    bi <= 5,
                    m_len == m.len(),
                    m == refseq.seq@,
                    all_bases(m),
                    self.min_length == old(self).min_length,
                    m0 == orig.insert(m, LookupSpec::Exact(name@)),
                    forall|k: Seq<u8>| #[trigger] processed_neighbor(k, m, i as int, bi as int)
                        ==> self@.contains_key(k) && self@[k] == neighbor_entry(m0, k, name@),
                    forall|k: Seq<u8>| !(#[trigger] processed_neighbor(k, m, i as int, bi as int))
                        ==> ((self@.contains_key(k) <==> m0.contains_key(k)) && (m0.contains_key(k)
                        ==> self@[k] == m0[k])),
                    orig == Map::<Seq<u8>, LookupSpec>::empty()
                        ==> self.all_whitelist_combinations@.len() == 1 + cnt,
                    cnt == 4 * i + alt_count(m[i as int], bi as int),
                decreases 5 - bi,
            {
                let single_base: u8 = if bi == 0 {
                    65
                } else if bi == 1 {
                    67
                } else if bi == 2 {
                    71
                } else if bi == 3 {
                    84
                } else {
                    78
                };
                proof {
                    assert(base_seq()[bi as int] == single_base);
                }
                if single_base != refseq.seq[i] {
                    let mut one_mismatch = refseq.seq.clone();
                    proof {
                        assert(one_mismatch@ =~= m);
                    }
                    one_mismatch[i] = single_base;
                    let ghost nk = m.update(i as int, single_base);
                    proof {
                        assert(one_mismatch@ == nk);
                        assert(!processed_neighbor(nk, m, i as int, bi as int)) by {
                            if processed_neighbor(nk, m, i as int, bi as int) {
                                let (i2, b2) = choose|i2: int, b2: int|
                                    #[trigger] neighbor_pair(nk, m, i2, b2) && (i2 < i as int || (
                                    i2 == i as int && b2 < bi as int));
                                lemma_update_distinct(
                                    m,
                                    i2,
                                    base_seq()[b2],
                                    i as int,
                                    single_base,
                                );
                            }
                        }
                        assert(neighbor_pair(nk, m, i as int, bi as int));
                    }
                    let ghost prev = self@;
                    match self.find(one_mismatch.as_slice()) {
                        None => {
                            self.insert(
                                Sequence { seq: one_mismatch },
                                SequenceLookup::ErrorOf(name.to_owned()),
                            );
                            proof {
                                assert(!m0.contains_key(nk));
                                assert(self@[nk] == neighbor_entry(m0, nk, name@));
                            }
                        },
                        Some(idx) => {
                            let upgrade = matches!(
                                &self.all_whitelist_combinations[idx].1,
                                SequenceLookup::ErrorOf(_)
                            );
                            proof {
                                lemma_entry_view(*self, idx as int);
                                assert(prev.contains_key(nk));
                                assert(m0.contains_key(nk) && m0[nk] == prev[nk]);
                            }
                            if upgrade {
                                self.insert(
                                    Sequence { seq: one_mismatch },
                                    SequenceLookup::Ambiguous,
                                );
                                proof {
                                    assert(m0[nk] is ErrorOf);
                                    assert(self@[nk] == neighbor_entry(m0, nk, name@));
                                    if orig == Map::<Seq<u8>, LookupSpec>::empty() {
                                        assert(m0.contains_key(nk));
                                        assert(m0 == Map::<Seq<u8>, LookupSpec>::empty().insert(
                                            m,
                                            LookupSpec::Exact(name@),
                                        ));
                                        lemma_update_ne(m, i as int, single_base);
                                        assert(false);
                                    }
                                }
                            } else {
                                proof {
                                    assert(!(m0[nk] is ErrorOf));
                                    assert(self@[nk] == neighbor_entry(m0, nk, name@));
                                    if orig == Map::<Seq<u8>, LookupSpec>::empty() {
                                        lemma_update_ne(m, i as int, single_base);
                                        assert(false);
                                    }
                                }
                            }
                        },
                    }
                    proof {
                        cnt = cnt + 1;
                        assert forall|k: Seq<u8>| #[trigger] processed_neighbor(
                            k,
                            m,
                            i as int,
                            bi as int + 1,
                        ) implies self@.contains_key(k) && self@[k] == neighbor_entry(
                            m0,
                            k,
                            name@,
                        ) by {
                            if k != nk {
                                let (i2, b2) = choose|i2: int, b2: int|
                                    #[trigger] neighbor_pair(k, m, i2, b2) && (i2 < i as int || (i2
                                    == i as int && b2 < bi as int + 1));
                                if i2 == i as int && b2 == bi as int {
                                    assert(k == nk);
                                } else {
                                    assert(processed_neighbor(k, m, i as int, bi as int));
                                    assert(prev.contains_key(k) && prev[k] == neighbor_entry(
                                        m0,
                                        k,
                                        name@,
                                    ));
                                }
                            }
                        }
                        assert(processed_neighbor(nk, m, i as int, bi as int + 1));
                        assert forall|k: Seq<u8>| !(#[trigger] processed_neighbor(
                            k,
                            m,
                            i as int,
                            bi as int + 1,
                        )) implies ((self@.contains_key(k) <==> m0.contains_key(k)) && (
                        m0.contains_key(k) ==> self@[k] == m0[k])) by {
                            assert(k != nk);
                            assert(!processed_neighbor(k, m, i as int, bi as int)) by {
                                if processed_neighbor(k, m, i as int, bi as int) {
                                    let (i2, b2) = choose|i2: int, b2: int|
                                        #[trigger] neighbor_pair(k, m, i2, b2) && (i2 < i as int
                                        || (i2 == i as int && b2 < bi as int));
                                    assert(neighbor_pair(k, m, i2, b2) && (i2 < i as int || (i2
                                        == i as int && b2 < bi as int + 1)));
                                }
                            }
                        }
                        assert(cnt == 4 * i + alt_count(m[i as int], bi as int + 1));
                    }
                } else {
                    proof {
                        assert forall|k: Seq<u8>|
                            #![trigger processed_neighbor(k, m, i as int, bi as int + 1)]
                            #![trigger processed_neighbor(k, m, i as int, bi as int)]
                            processed_neighbor(k, m, i as int, bi as int + 1)
                            == processed_neighbor(k, m, i as int, bi as int) by {
                            if processed_neighbor(k, m, i as int, bi as int + 1) {
                                let (i2, b2) = choose|i2: int, b2: int|
                                    #[trigger] neighbor_pair(k, m, i2, b2) && (i2 < i as int || (i2
                                    == i as int && b2 < bi as int + 1));
                                assert(!(i2 == i as int && b2 == bi as int));
                                assert(neighbor_pair(k, m, i2, b2) && (i2 < i as int || (i2
                                    == i as int && b2 < bi as int)));
                            }
                            if processed_neighbor(k, m, i as int, bi as int) {
                                let (i2, b2) = choose|i2: int, b2: int|
                                    #[trigger] neighbor_pair(k, m, i2, b2) && (i2 < i as int || (i2
                                    == i as int && b2 < bi as int));
                                assert(neighbor_pair(k, m, i2, b2) && (i2 < i as int || (i2
                                    == i as int && b2 < bi as int + 1)));
                            }
                        }
                        assert(cnt == 4 * i + alt_count(m[i as int], bi as int + 1));
                    }
                }
                bi += 1;
            }
            proof {
                lemma_alt_count_full(m[i as int]);
                assert forall|k: Seq<u8>|
                    #![trigger processed_neighbor(k, m, i as int + 1, 0)]
                    #![trigger processed_neighbor(k, m, i as int, 5)]
                    processed_neighbor(k, m, i as int + 1, 0)
                    == processed_neighbor(k, m, i as int, 5) by {
                    if processed_neighbor(k, m, i as int + 1, 0) {
                        let (i2, b2) = choose|i2: int, b2: int|
                            #[trigger] neighbor_pair(k, m, i2, b2) && (i2 < i as int + 1 || (i2
                            == i as int + 1 && b2 < 0));
                        assert(neighbor_pair(k, m, i2, b2) && (i2 < i as int || (i2 == i as int
                            && b2 < 5)));
                    }
                    if processed_neighbor(k, m, i as int, 5) {
                        let (i2, b2) = choose|i2: int, b2: int|
                            #[trigger] neighbor_pair(k, m, i2, b2) && (i2 < i as int || (i2
                            == i as int && b2 < 5));
                        assert(neighbor_pair(k, m, i2, b2) && (i2 < i as int + 1 || (i2 == i as int
                            + 1 && b2 < 0)));
                    }
                }
            }
            i += 1;
        }
        proof {
            let ta = table_add(orig, m, name@);
            assert forall|k: Seq<u8>|
                (self@.contains_key(k) == #[trigger] ta.contains_key(k)) && (self@.contains_key(k)
                    ==> self@[k] == ta[k]) by {
                lemma_neighbor_pair_iff(k, m);
                if k == m {
                    assert(!processed_neighbor(k, m, m.len() as int, 0)) by {
                        if processed_neighbor(k, m, m.len() as int, 0) {
                            let (i2, b2) = choose|i2: int, b2: int|
                                #[trigger] neighbor_pair(k, m, i2, b2) && (i2 < m.len() as int || (
                                i2 == m.len() as int && b2 < 0));
                            lemma_update_ne(m, i2, base_seq()[b2]);
                        }
                    }
                    assert(self@.contains_key(k) && self@[k] == LookupSpec::Exact(name@));
                } else if is_one_sub_neighbor(k, m) {
                    let (i2, b2) = choose|i2: int, b2: int| #[trigger] neighbor_pair(k, m, i2, b2);
                    assert(processed_neighbor(k, m, m.len() as int, 0));
                    assert(self@[k] == neighbor_entry(m0, k, name@));
                    assert(neighbor_entry(m0, k, name@) == neighbor_entry(orig, k, name@));
                } else {
                    assert(!processed_neighbor(k, m, m.len() as int, 0)) by {
                        if processed_neighbor(k, m, m.len() as int, 0) {
                            let (i2, b2) = choose|i2: int, b2: int|
                                #[trigger] neighbor_pair(k, m, i2, b2) && (i2 < m.len() as int || (
                                i2 == m.len() as int && b2 < 0));
                            assert(neighbor_pair(k, m, i2, b2));
                        }
                    }
                }
            }
            assert forall|k: Seq<u8>|
                #![trigger self@.dom().contains(k)]
                #![trigger ta.dom().contains(k)]
                self@.dom().contains(k) == ta.dom().contains(k) by {
                assert(self@.contains_key(k) == ta.contains_key(k));
            }
            assert forall|k: Seq<u8>| #[trigger] self@.dom().contains(k) implies self@[k]
                == ta[k] by {
                assert(self@.contains_key(k) == ta.contains_key(k));
            }
            assert(self@ =~= ta);
        }
    }
}

/// The table map a whitelist of a single marker produces: the marker's key
/// classified `Exact`, every one-substitution neighbor classified `ErrorOf`,
/// and nothing else.
pub open spec fn single_marker_table(m: Seq<u8>, name: Seq<char>) -> Map<Seq<u8>, LookupSpec> {
    Map::new(
        |k: Seq<u8>| k == m || is_one_sub_neighbor(k, m),
        |k: Seq<u8>|
            if k == m {
                LookupSpec::Exact(name)
            } else {
                LookupSpec::ErrorOf(name)
            },
    )
}

/// Looking up in a single-marker table returns `Exact` on the marker itself,
/// `ErrorOf` on every one-substitution neighbor, and `NoMatch` on any other
/// window, in particular on one of the wrong length.
pub proof fn lemma_single_marker_lookup(m: Seq<u8>, name: Seq<char>, w: Seq<u8>)
    ensures
        table_add(Map::<Seq<u8>, LookupSpec>::empty(), m, name) == single_marker_table(m, name),
        lookup_spec(single_marker_table(m, name), m) == LookupSpec::Exact(name),
        is_one_sub_neighbor(w, m) && w != m ==> lookup_spec(single_marker_table(m, name), w)
            == LookupSpec::ErrorOf(name),
        w != m && !is_one_sub_neighbor(w, m) ==> lookup_spec(single_marker_table(m, name), w)
            == LookupSpec::NoMatch,
        w.len() != m.len() ==> lookup_spec(single_marker_table(m, name), w)
            == LookupSpec::NoMatch,
{
    assert(table_add(Map::<Seq<u8>, LookupSpec>::empty(), m, name) =~= single_marker_table(
        m,
        name,
    ));
    if w.len() != m.len() {
        assert(!is_one_sub_neighbor(w, m)) by {
            if is_one_sub_neighbor(w, m) {
                let i = choose|i: int| differs_only_at(w, m, i) && is_base(w[i]);
            }
        }
        assert(w != m);
    }
}

/// A window whose length differs from the common key length of a trimmed
/// table is no key of it, so looking it up returns `NoMatch`.
pub proof fn lemma_wrong_length_no_match(t: SequenceTable, w: Seq<u8>)
    requires
        t.trimmed(),
        w.len() != t.min_length,
    ensures
        lookup_spec(t@, w) == LookupSpec::NoMatch,
{
}

/// The entry at a valid index of a well-formed table is what the table map
/// holds for that entry's key.
proof fn lemma_entry_view(t: SequenceTable, i: int)
    requires
        t.wf(),
        0 <= i < t.all_whitelist_combinations@.len(),
    ensures
        t@.contains_key(t.all_whitelist_combinations@[i].0.seq@),
        t@[t.all_whitelist_combinations@[i].0.seq@] == t.all_whitelist_combinations@[i].1@,
{
    let k = t.all_whitelist_combinations@[i].0.seq@;
    assert(t.all_whitelist_combinations@[i].0.seq@ == k);
    let j = choose|j: int|
        0 <= j < t.all_whitelist_combinations@.len()
            && #[trigger] t.all_whitelist_combinations@[j].0.seq@ == k;
    if j != i {
        assert(t.all_whitelist_combinations@[i].0.seq@
            != t.all_whitelist_combinations@[j].0.seq@);
    }
}

} // verus!
