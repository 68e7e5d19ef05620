//! Total transfer rates from the byte counters of the network interfaces,
//! sampled twice a second.
use crate::binary64::{f64_quotient_as_u64, is_half_or_more, quotient_as_u64};
use crate::models::SummarySnapshot;
use std::collections::HashMap;
use vstd::prelude::*;
use vstd::std_specs::iter::IteratorSpec;

verus! {

broadcast use {vstd::std_specs::hash::group_hash_axioms, vstd::seq_lib::group_seq_properties};

/// The byte counters of one network interface.
#[derive(Debug, Clone)]
pub struct InterfaceCounter {
    pub alias: String,
    pub in_octets: u64,
    pub out_octets: u64,
}

/// `a - b`, or zero when `b` is larger, as `saturating_sub` gives it.
pub open spec fn saturating_diff(a: u64, b: u64) -> u64 {
    if a >= b {
        (a - b) as u64
    } else {
        0
    }
}

/// The bits per second one interface received since the previous sample:
/// its new bytes (none if the counter went back) over the elapsed seconds,
/// truncated to an integer, times eight; nothing for an interface the
/// previous sample did not see.
pub open spec fn down_term(
    counters: Map<u32, InterfaceCounter>,
    last: Map<u32, InterfaceCounter>,
    elapsed_bits: u64,
    index: u32,
) -> nat {
    if last.contains_key(index) {
        (8 * quotient_as_u64(saturating_diff(counters[index].in_octets, last[index].in_octets), elapsed_bits)) as nat
    } else {
        0
    }
}

/// The bits per second one interface sent since the previous sample.
pub open spec fn up_term(
    counters: Map<u32, InterfaceCounter>,
    last: Map<u32, InterfaceCounter>,
    elapsed_bits: u64,
    index: u32,
) -> nat {
    if last.contains_key(index) {
        (8 * quotient_as_u64(saturating_diff(counters[index].out_octets, last[index].out_octets), elapsed_bits)) as nat
    } else {
        0
    }
}

/// The sum of the download terms over the listed interfaces.
pub open spec fn down_total(
    indices: Seq<u32>,
    counters: Map<u32, InterfaceCounter>,
    last: Map<u32, InterfaceCounter>,
    elapsed_bits: u64,
) -> nat
    decreases indices.len(),
{
    if indices.len() == 0 {
        0
    } else {
        down_total(indices.drop_last(), counters, last, elapsed_bits) + down_term(counters, last, elapsed_bits, indices.last())
    }
}

/// The sum of the upload terms over the listed interfaces.
pub open spec fn up_total(
    indices: Seq<u32>,
    counters: Map<u32, InterfaceCounter>,
    last: Map<u32, InterfaceCounter>,
    elapsed_bits: u64,
) -> nat
    decreases indices.len(),
{
    if indices.len() == 0 {
        0
    } else {
        up_total(indices.drop_last(), counters, last, elapsed_bits) + up_term(counters, last, elapsed_bits, indices.last())
    }
}

/// Whether `indices` lists every interface of `counters` once.
pub open spec fn lists_interfaces(indices: Seq<u32>, counters: Map<u32, InterfaceCounter>) -> bool {
    &&& indices.no_duplicates()
    &&& forall|i: int| 0 <= i < indices.len() ==> counters.contains_key(#[trigger] indices[i])
    &&& forall|index: u32| #[trigger] counters.contains_key(index) ==> indices.contains(index)
}

/// Whether a sample taken in the order `indices` is right: the adapters are
/// the aliases in that order; with a previous sample the rates are the
/// totals, and the sample fails exactly when a total passes `u64::MAX`;
/// without one both rates are zero.
pub open spec fn sample_outcome(
    indices: Seq<u32>,
    counters: Map<u32, InterfaceCounter>,
    last: Map<u32, InterfaceCounter>,
    has_previous: bool,
    elapsed_bits: u64,
    sampled_at: u64,
    r: Option<SummarySnapshot>,
) -> bool {
    let down = down_total(indices, counters, last, elapsed_bits);
    let up = up_total(indices, counters, last, elapsed_bits);
    if has_previous && (down > u64::MAX || up > u64::MAX) {
        r is None
    } else {
        r matches Some(snapshot) && {
            &&& snapshot.sampled_at == sampled_at
            &&& snapshot.adapters@.len() == indices.len()
            &&& forall|i: int| 0 <= i < indices.len() ==> (#[trigger] snapshot.adapters@[i])@ == counters[indices[i]].alias@
            &&& if has_previous {
                snapshot.down_bps == down && snapshot.up_bps == up
            } else {
                snapshot.down_bps == 0 && snapshot.up_bps == 0
            }
        }
    }
}

/// The sampler's memory: when it last sampled and what the counters were.
pub struct SummarySampler<M> {
    pub last_at: Option<M>,
    pub last_counters: HashMap<u32, InterfaceCounter>,
}

proof fn lemma_totals_grow(
    indices: Seq<u32>,
    i: int,
    counters: Map<u32, InterfaceCounter>,
    last: Map<u32, InterfaceCounter>,
    elapsed_bits: u64,
)
    requires
        0 <= i <= indices.len(),
    ensures
        down_total(indices.take(i), counters, last, elapsed_bits) <= down_total(indices, counters, last, elapsed_bits),
        up_total(indices.take(i), counters, last, elapsed_bits) <= up_total(indices, counters, last, elapsed_bits),
    decreases indices.len() - i,
{
    if i < indices.len() {
        lemma_totals_grow(indices, i + 1, counters, last, elapsed_bits);
        assert(indices.take(i + 1).drop_last() =~= indices.take(i));
    } else {
        assert(indices.take(i) =~= indices);
    }
}

impl<M> SummarySampler<M> {
    /// A sampler that has not sampled yet.
    pub fn new() -> (r: Self)
        ensures
            r.last_at is None,
            r.last_counters@ == Map::<u32, InterfaceCounter>::empty(),
    {
        SummarySampler { last_at: None, last_counters: HashMap::new() }
    }

    /// Takes a sample at `now` from the interface counters. `elapsed_bits`
    /// holds the binary64 seconds since the previous sample, at least one
    /// half. On success the sampler remembers `now` and the counters; when
    /// a rate does not fit in `u64` it gives `None` and changes nothing.
    pub fn sample(
        &mut self,
        now: M,
        counters: HashMap<u32, InterfaceCounter>,
        sampled_at: u64,
        elapsed_bits: u64,
    ) -> (r: Option<SummarySnapshot>)
        requires
            is_half_or_more(elapsed_bits),
        ensures
            exists|indices: Seq<u32>|
                lists_interfaces(indices, counters@) && #[trigger] sample_outcome(
                    indices,
                    counters@,
                    old(self).last_counters@,
                    old(self).last_at is Some,
                    elapsed_bits,
                    sampled_at,
                    r,
                ),
            r is Some ==> final(self).last_at == Some(now) && final(self).last_counters@ == counters@,
            r is None ==> final(self).last_at == old(self).last_at && final(self).last_counters@ == old(self).last_counters@,
    {
        let has_previous = self.last_at.is_some();
        let ghost last = self.last_counters@;
        let ghost cm = counters@;
        let ghost s = counters.iter().remaining();
        let ghost indices = s.map_values(|p: (&u32, &InterfaceCounter)| *p.0);
        let mut adapters: Vec<String> = Vec::new();
        let mut down_bps: u64 = 0;
        let mut up_bps: u64 = 0;
        let mut failed = false;
        for (index, counter) in it: counters.iter()
            invariant
                it.seq() == s,
                s.no_duplicates(),
                cm == counters@,
                last == self.last_counters@,
                has_previous == (self.last_at is Some),
                is_half_or_more(elapsed_bits),
                indices == s.map_values(|p: (&u32, &InterfaceCounter)| *p.0),
                forall|j: int| 0 <= j < s.len() ==> cm.contains_key(*s[j].0) && cm[*s[j].0] == *s[j].1,
                forall|k: u32| cm.contains_key(k) ==> s.contains((&k, &cm[k])),
                adapters@.len() == it.index(),
                forall|i: int| 0 <= i < it.index() ==> (#[trigger] adapters@[i])@ == cm[indices[i]].alias@,
                !failed ==> has_previous ==> down_bps == down_total(indices.take(it.index()), cm, last, elapsed_bits)
                    && up_bps == up_total(indices.take(it.index()), cm, last, elapsed_bits),
                !failed ==> !has_previous ==> down_bps == 0 && up_bps == 0,
                failed ==> has_previous && (down_total(indices.take(it.index()), cm, last, elapsed_bits) > u64::MAX
                    || up_total(indices.take(it.index()), cm, last, elapsed_bits) > u64::MAX),
        {
            let ghost i = it.index();
            assert(*s[i].0 == *index && *s[i].1 == *counter);
            assert(indices[i] == *index);
            assert(indices.take(i + 1).drop_last() =~= indices.take(i));
            proof {
                lemma_totals_grow(indices.take(i + 1), i, cm, last, elapsed_bits);
            }
            let ghost before_down = down_total(indices.take(i), cm, last, elapsed_bits);
            let ghost before_up = up_total(indices.take(i), cm, last, elapsed_bits);
            adapters.push(counter.alias.clone());
            if has_previous && !failed {
                match self.last_counters.get(index) {
                    Some(previous) => {
                        let received = if counter.in_octets >= previous.in_octets {
                            counter.in_octets - previous.in_octets
                        } else {
                            0
                        };
                        let sent = if counter.out_octets >= previous.out_octets {
                            counter.out_octets - previous.out_octets
                        } else {
                            0
                        };
                        let down_rate = f64_quotient_as_u64(received, elapsed_bits);
                        let up_rate = f64_quotient_as_u64(sent, elapsed_bits);
                        let down_step = down_rate.checked_mul(8);
                        let up_step = up_rate.checked_mul(8);
                        match (down_step, up_step) {
                            (Some(down_step), Some(up_step)) => {
                                match (down_bps.checked_add(down_step), up_bps.checked_add(up_step)) {
                                    (Some(down), Some(up)) => {
                                        down_bps = down;
                                        up_bps = up;
                                    },
                                    _ => {
                                        failed = true;
                                    },
                                }
                            },
                            _ => {
                                failed = true;
                            },
                        }
                    },
                    None => {},
                }
            }
            proof {
                if failed {
                    lemma_totals_grow(indices.take(i + 1), i, cm, last, elapsed_bits);
                }
            }
        }
        proof {
            assert(indices.take(s.len() as int) =~= indices);
            assert(indices.no_duplicates()) by {
                assert forall|a: int, b: int| 0 <= a < b < indices.len() implies indices[a] != indices[b] by {
                    if indices[a] == indices[b] {
                        assert(s[a] == s[b]);
                    }
                }
            }
            assert forall|index: u32| #[trigger] cm.contains_key(index) implies indices.contains(index) by {
                assert(s.contains((&index, &cm[index])));
                let j = choose|j: int| 0 <= j < s.len() && s[j] == (&index, &cm[index]);
                assert(indices[j] == index);
            }
            assert(lists_interfaces(indices, cm));
        }
        if failed {
            proof {
                assert(sample_outcome(indices, cm, last, has_previous, elapsed_bits, sampled_at, None));
            }
            return None;
        }
        self.last_at = Some(now);
        self.last_counters = counters;
        let snapshot = SummarySnapshot { down_bps, up_bps, sampled_at, adapters };
        proof {
            assert(sample_outcome(indices, cm, last, has_previous, elapsed_bits, sampled_at, Some(snapshot)));
        }
        Some(snapshot)
    }
}

} // verus!
