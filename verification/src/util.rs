//! The offset histogram and the position selector.
//!
//! The histogram maps a window start offset to the score accumulated for it.
//! The selector picks the offset with the greatest score; on a tie the lowest
//! offset wins, a deliberate, documented choice where iteration order of a
//! hash map would otherwise decide.

use vstd::prelude::*;

verus! {

/// A map from window start offset to accumulated score, held as an
/// association list with pairwise distinct keys and positive scores.
#[derive(Clone, Debug)]
pub struct Histogram {
    pub counts: Vec<(usize, usize)>,
}

impl View for Histogram {
    type V = Map<usize, usize>;

    open spec fn view(&self) -> Map<usize, usize> {
        Map::new(
            |k: usize| exists|i: int|
                0 <= i < self.counts@.len() && (#[trigger] self.counts@[i]).0 == k,
            |k: usize| {
                let i = choose|i: int|
                    0 <= i < self.counts@.len() && (#[trigger] self.counts@[i]).0 == k;
                self.counts@[i].1
            },
        )
    }
}

impl Histogram {
    /// Keys are pairwise distinct and every stored score is positive, so an
    /// offset is a key exactly when its accumulated score is nonzero.
    pub open spec fn wf(&self) -> bool {
        &&& forall|i: int, j: int|
            0 <= i < j < self.counts@.len() ==> (#[trigger] self.counts@[i]).0 != (
            #[trigger] self.counts@[j]).0
        &&& forall|i: int| 0 <= i < self.counts@.len() ==> (#[trigger] self.counts@[i]).1 > 0
    }

    /// The accumulated score of offset `k`; 0 when `k` is not a key.
    pub open spec fn count(&self, k: usize) -> int {
        if self@.contains_key(k) {
            self@[k] as int
        } else {
            0
        }
    }

    /// An empty histogram.
    pub fn new() -> (r: Self)
        ensures
            r.wf(),
            r@ == Map::<usize, usize>::empty(),
            r.counts@.len() == 0,
    {
        let r = Histogram { counts: Vec::new() };
        proof {
            assert(r@ =~= Map::<usize, usize>::empty());
        }
        r
    }

    /// The index of the entry for offset `k`, if any.
    fn find(&self, k: usize) -> (r: Option<usize>)
        ensures
            match r {
                Some(i) => i < self.counts@.len() && self.counts@[i as int].0 == k,
                None => !self@.contains_key(k),
            },
    {
        let n = self.counts.len();
        let mut i: usize = 0;
        while i < n
            invariant
                i <= n,
                n == self.counts@.len(),
                forall|j: int| 0 <= j < i ==> (#[trigger] self.counts@[j]).0 != k,
            decreases n - i,
        {
            if self.counts[i].0 == k {
                return Some(i);
            }
            i += 1;
        }
        None
    }

    /// The stored score of offset `k`, if any.
    pub fn get(&self, k: usize) -> (r: Option<usize>)
        requires
            self.wf(),
        ensures
            match r {
                Some(c) => self@.contains_key(k) && self@[k] == c,
                None => !self@.contains_key(k),
            },
    {
        match self.find(k) {
            Some(i) => {
                proof {
                    lemma_histogram_entry_view(*self, i as int);
                }
                Some(self.counts[i].1)
            },
            None => None,
        }
    }
}

/// The entry at a valid index of a well-formed histogram is what the
/// histogram map holds for that entry's offset.
proof fn lemma_histogram_entry_view(h: Histogram, i: int)
    requires
        h.wf(),
        0 <= i < h.counts@.len(),
    ensures
        h@.contains_key(h.counts@[i].0),
        h@[h.counts@[i].0] == h.counts@[i].1,
{
    let k = h.counts@[i].0;
    assert(h.counts@[i].0 == k);
    let j = choose|j: int| 0 <= j < h.counts@.len() && (#[trigger] h.counts@[j]).0 == k;
    if j != i {
        assert(h.counts@[i].0 != h.counts@[j].0);
    }
}

/// Adds `score` to the accumulated score of offset `pos`, creating the entry
/// when a positive score arrives for a fresh offset.
pub fn increment_frequency_of_target_start_pos(
    target_position_frequency: &mut Histogram,
    pos: usize,
    score: usize,
)
    requires
        old(target_position_frequency).wf(),
        old(target_position_frequency).count(pos) + score <= usize::MAX,
    ensures
        final(target_position_frequency).wf(),
        final(target_position_frequency).count(pos) == old(target_position_frequency).count(pos)
            + score,
        forall|k: usize|
            k != pos ==> #[trigger] final(target_position_frequency).count(k) == old(
                target_position_frequency,
            ).count(k),
        final(target_position_frequency)@.contains_key(pos) <==> (old(
            target_position_frequency,
        )@.contains_key(pos) || score > 0),
        forall|k: usize|
            k != pos ==> (#[trigger] final(target_position_frequency)@.contains_key(k) <==> old(
                target_position_frequency,
            )@.contains_key(k)),
{
    let ghost h0 = *old(target_position_frequency);
    match target_position_frequency.find(pos) {
        Some(i) => {
            proof {
                lemma_histogram_entry_view(*target_position_frequency, i as int);
            }
            let c = target_position_frequency.counts[i].1;
            target_position_frequency.counts[i] = (pos, c + score);
            proof {
                let h = *target_position_frequency;
                assert forall|k: usize|
                    #![trigger h@.contains_key(k)]
                    #![trigger h0@.contains_key(k)]
                    h@.contains_key(k) == h0@.contains_key(k) by {
                    if h@.contains_key(k) {
                        let j = choose|j: int|
                            0 <= j < h.counts@.len() && (#[trigger] h.counts@[j]).0 == k;
                        assert(h0.counts@[j].0 == k);
                    }
                    if h0@.contains_key(k) {
                        let j = choose|j: int|
                            0 <= j < h0.counts@.len() && (#[trigger] h0.counts@[j]).0 == k;
                        assert(h.counts@[j].0 == k);
                    }
                }
                assert forall|k: usize| h@.contains_key(k) implies #[trigger] h@[k] == (if k == pos {
                    (h0.count(pos) + score) as usize
                } else {
                    h0@[k]
                }) by {
                    let j = choose|j: int|
                        0 <= j < h.counts@.len() && (#[trigger] h.counts@[j]).0 == k;
                    lemma_histogram_entry_view(h, j);
                    if k == pos {
                        if j != i {
                            assert(h.counts@[j].0 != h.counts@[i as int].0);
                        }
                    } else {
                        assert(j != i);
                        lemma_histogram_entry_view(h0, j);
                    }
                }
            }
        },
        None => {
            if score > 0 {
                target_position_frequency.counts.push((pos, score));
                proof {
                    let h = *target_position_frequency;
                    let n = h0.counts@.len() as int;
                    assert forall|i2: int, j2: int|
                        0 <= i2 < j2 < h.counts@.len() implies (#[trigger] h.counts@[i2]).0 != (
                    #[trigger] h.counts@[j2]).0 by {
                        if j2 < n {
                            assert(h0.counts@[i2].0 != h0.counts@[j2].0);
                        } else {
                            if h.counts@[i2].0 == pos {
                                assert(h0.counts@[i2].0 == pos);
                                assert(h0@.contains_key(pos));
                            }
                        }
                    }
                    assert forall|k: usize| #[trigger] h@.contains_key(k) implies (k == pos
                        || h0@.contains_key(k)) by {
                        let j = choose|j: int|
                            0 <= j < h.counts@.len() && (#[trigger] h.counts@[j]).0 == k;
                        if j < n {
                            assert(h0.counts@[j].0 == k);
                        }
                    }
                    assert(h.counts@[n].0 == pos);
                    assert forall|k: usize| #[trigger] h0@.contains_key(k) implies h@.contains_key(
                        k,
                    ) by {
                        let j = choose|j: int|
                            0 <= j < h0.counts@.len() && (#[trigger] h0.counts@[j]).0 == k;
                        assert(h.counts@[j].0 == k);
                    }
                    assert forall|k: usize| h@.contains_key(k) implies #[trigger] h@[k] == (if k
                        == pos {
                        score
                    } else {
                        h0@[k]
                    }) by {
                        let j = choose|j: int|
                            0 <= j < h.counts@.len() && (#[trigger] h.counts@[j]).0 == k;
                        lemma_histogram_entry_view(h, j);
                        if k == pos {
                            if j != n {
                                assert(h.counts@[j].0 == h0.counts@[j].0);
                                assert(h0@.contains_key(pos));
                            }
                        } else {
                            assert(j != n);
                            lemma_histogram_entry_view(h0, j);
                        }
                    }
                }
            }
        },
    }
}

/// The offset with the greatest accumulated score, or nothing when the
/// histogram is empty; among offsets of equal score the lowest wins.
pub fn get_most_frequently_occuring_key(input_hashmap: &Histogram) -> (r: Option<usize>)
    requires
        input_hashmap.wf(),
    ensures
        (r is None <==> input_hashmap@ == Map::<usize, usize>::empty()),
        r matches Some(k) ==> input_hashmap@.contains_key(k) && (forall|j: usize|
            #[trigger] input_hashmap@.contains_key(j) ==> input_hashmap@[j] <= input_hashmap@[k]
                && (input_hashmap@[j] == input_hashmap@[k] ==> k <= j)),
{
    let n = input_hashmap.counts.len();
    if n == 0 {
        proof {
            assert(input_hashmap@ =~= Map::<usize, usize>::empty());
        }
        return None;
    }
    let mut best_k = input_hashmap.counts[0].0;
    let mut best_c = input_hashmap.counts[0].1;
    let mut i: usize = 1;
    while i < n
        invariant
            1 <= i <= n,
            n == input_hashmap.counts@.len(),
            input_hashmap.wf(),
            exists|j: int|
                0 <= j < i && (#[trigger] input_hashmap.counts@[j]) == (best_k, best_c),
            forall|j: int|
                0 <= j < i ==> (#[trigger] input_hashmap.counts@[j]).1 <= best_c && (
                input_hashmap.counts@[j].1 == best_c ==> best_k <= input_hashmap.counts@[j].0),
        decreases n - i,
    {
        let (k, c) = input_hashmap.counts[i];
        if c > best_c || (c == best_c && k < best_k) {
            best_k = k;
            best_c = c;
            proof {
                assert(input_hashmap.counts@[i as int] == (best_k, best_c));
            }
        }
        i += 1;
    }
    proof {
        let h = *input_hashmap;
        let jb = choose|j: int| 0 <= j < n && (#[trigger] h.counts@[j]) == (best_k, best_c);
        lemma_histogram_entry_view(h, jb);
        assert forall|j: usize| #[trigger] h@.contains_key(j) implies h@[j] <= h@[best_k] && (h@[j]
            == h@[best_k] ==> best_k <= j) by {
            let ji = choose|t: int| 0 <= t < h.counts@.len() && (#[trigger] h.counts@[t]).0 == j;
            lemma_histogram_entry_view(h, ji);
        }
        assert(h@.contains_key(best_k));
        assert(h@ != Map::<usize, usize>::empty());
    }
    Some(best_k)
}

} // verus!
