//! Sorters are ways to order servers, where the first server of the sorted
//! catalog is the most preferred one.

use crate::servers::{Server, ServerView};
use core::cmp::Ordering;
use vstd::prelude::*;

verus! {

/// A Sorter is a way to order servers, from best server (according to the way
/// of sorting) to worst one.
pub trait Sorter {
    /// Whether this sorter is prepared to compare a given server.
    spec fn spec_ready(&self, server: ServerView) -> bool;

    /// The preference order: `spec_leq(a, b)` says that `a` is at least as
    /// preferred as `b`.
    spec fn spec_leq(&self, a: ServerView, b: ServerView) -> bool;

    /// The preference order is total and transitive.
    proof fn lemma_order(&self, a: ServerView, b: ServerView, c: ServerView)
        ensures
            self.spec_leq(a, b) || self.spec_leq(b, a),
            self.spec_leq(a, b) && self.spec_leq(b, c) ==> self.spec_leq(a, c),
    ;

    /// Takes two servers, returns how they should be ordered according to
    /// this Sorter.
    fn sort(&self, a: &Server, b: &Server) -> (r: Ordering)
        requires
            self.spec_ready(a@),
            self.spec_ready(b@),
        ensures
            (r != Ordering::Greater) == self.spec_leq(a@, b@),
            (r != Ordering::Less) == self.spec_leq(b@, a@),
    ;
}

/// Sorter that sorts servers based on their load, favouring the least loaded
/// one.
pub struct LoadSorter;

impl Sorter for LoadSorter {
    open spec fn spec_ready(&self, server: ServerView) -> bool {
        true
    }

    open spec fn spec_leq(&self, a: ServerView, b: ServerView) -> bool {
        a.load <= b.load
    }

    proof fn lemma_order(&self, a: ServerView, b: ServerView, c: ServerView) {
    }

    fn sort(&self, a: &Server, b: &Server) -> (r: Ordering) {
        if a.load < b.load {
            Ordering::Less
        } else if a.load == b.load {
            Ordering::Equal
        } else {
            Ordering::Greater
        }
    }
}

/// The latency map that a list of `(hostname, latency)` entries stands for;
/// a later entry for the same hostname overrides an earlier one.
pub open spec fn spec_entry_map(entries: Seq<(String, u64)>) -> Map<Seq<char>, u64>
    decreases entries.len(),
{
    if entries.len() == 0 {
        Map::empty()
    } else {
        spec_entry_map(entries.drop_last()).insert(entries.last().0@, entries.last().1)
    }
}

/// Whether a list of entries holds a given hostname.
pub open spec fn spec_has_host(entries: Seq<(String, u64)>, h: Seq<char>) -> bool {
    exists|k: int| 0 <= k < entries.len() && entries[k].0@ == h
}

/// Whether the hostnames of a list of entries are pairwise distinct.
pub open spec fn spec_distinct_hosts(entries: Seq<(String, u64)>) -> bool {
    forall|k1: int, k2: int| 0 <= k1 < k2 < entries.len() ==> entries[k1].0@ != entries[k2].0@
}

/// What `spec_entry_map` holds: a key for each hostname of the entries, and,
/// for entries with pairwise distinct hostnames, each entry's own latency.
proof fn lemma_entry_map(entries: Seq<(String, u64)>)
    ensures
        forall|h: Seq<char>| #[trigger] spec_entry_map(entries).contains_key(h) <==> spec_has_host(
            entries,
            h,
        ),
        spec_distinct_hosts(entries) ==> forall|k: int|
            0 <= k < entries.len() ==> spec_entry_map(entries)[(#[trigger] entries[k]).0@]
                == entries[k].1,
    decreases entries.len(),
{
    if entries.len() == 0 {
    } else {
        let prefix = entries.drop_last();
        lemma_entry_map(prefix);
        assert forall|h: Seq<char>| #[trigger]
            spec_entry_map(entries).contains_key(h) implies spec_has_host(entries, h) by {
            if h == entries.last().0@ {
                assert(entries[entries.len() - 1].0@ == h);
            } else {
                assert(spec_entry_map(prefix).contains_key(h));
                assert(spec_has_host(prefix, h));
                let k = choose|k: int| 0 <= k < prefix.len() && prefix[k].0@ == h;
                assert(prefix[k] == entries[k]);
                assert(entries[k].0@ == h);
            }
        }
        assert forall|h: Seq<char>| spec_has_host(entries, h) implies spec_entry_map(
            entries,
        ).contains_key(h) by {
            let k = choose|k: int| 0 <= k < entries.len() && entries[k].0@ == h;
            if k < entries.len() - 1 {
                assert(prefix[k].0@ == h);
                assert(spec_has_host(prefix, h));
            }
        }
        if spec_distinct_hosts(entries) {
            assert(spec_distinct_hosts(prefix));
            assert forall|k: int| 0 <= k < entries.len() implies spec_entry_map(entries)[(
            #[trigger] entries[k]).0@] == entries[k].1 by {
                if k < entries.len() - 1 {
                    assert(prefix[k] == entries[k]);
                    assert(entries[k].0@ != entries.last().0@);
                }
            }
        }
    }
}

/// The total latency that a list of per-host measurements contributes to one
/// host: the sum of the values of its entries for that host.
pub open spec fn spec_round_total(round: Seq<(String, u64)>, h: Seq<char>) -> int
    decreases round.len(),
{
    if round.len() == 0 {
        0
    } else {
        spec_round_total(round.drop_last(), h) + if round.last().0@ == h {
            round.last().1 as int
        } else {
            0
        }
    }
}

/// The summed latency of one host over a whole list of measurement rounds.
pub open spec fn spec_rounds_total(rounds: Seq<Vec<(String, u64)>>, h: Seq<char>) -> int
    decreases rounds.len(),
{
    if rounds.len() == 0 {
        0
    } else {
        spec_rounds_total(rounds.drop_last(), h) + spec_round_total(rounds.last()@, h)
    }
}

/// Whether any round of a list of rounds measured a given host.
pub open spec fn spec_rounds_have(rounds: Seq<Vec<(String, u64)>>, h: Seq<char>) -> bool {
    exists|k: int| 0 <= k < rounds.len() && spec_has_host(#[trigger] rounds[k]@, h)
}

/// A host that no entry names contributes nothing.
proof fn lemma_round_total_absent(round: Seq<(String, u64)>, h: Seq<char>)
    requires
        !spec_has_host(round, h),
    ensures
        spec_round_total(round, h) == 0,
    decreases round.len(),
{
    if round.len() > 0 {
        assert(!spec_has_host(round.drop_last(), h)) by {
            if spec_has_host(round.drop_last(), h) {
                let k = choose|k: int|
                    0 <= k < round.drop_last().len() && round.drop_last()[k].0@ == h;
                assert(round[k].0@ == h);
            }
        }
        lemma_round_total_absent(round.drop_last(), h);
        assert(round[round.len() - 1].0@ != h);
    }
}

/// A round with pairwise distinct hosts contributes at most one measured
/// value to any host.
proof fn lemma_round_total_bounds(round: Seq<(String, u64)>, h: Seq<char>)
    requires
        spec_distinct_hosts(round),
    ensures
        0 <= spec_round_total(round, h) <= u64::MAX,
    decreases round.len(),
{
    if round.len() > 0 {
        let prefix = round.drop_last();
        assert(spec_distinct_hosts(prefix));
        lemma_round_total_bounds(prefix, h);
        if round.last().0@ == h {
            assert(!spec_has_host(prefix, h)) by {
                if spec_has_host(prefix, h) {
                    let k = choose|k: int| 0 <= k < prefix.len() && prefix[k].0@ == h;
                    assert(round[k].0@ == h && round[round.len() - 1].0@ == h);
                }
            }
            lemma_round_total_absent(prefix, h);
        }
    }
}

/// A prefix of `i` rounds, each with distinct hosts, contributes at most `i`
/// measured values to any host.
proof fn lemma_rounds_total_bounds(rounds: Seq<Vec<(String, u64)>>, h: Seq<char>)
    requires
        forall|k: int| 0 <= k < rounds.len() ==> spec_distinct_hosts(#[trigger] rounds[k]@),
    ensures
        0 <= spec_rounds_total(rounds, h) <= rounds.len() * (u64::MAX as int),
    decreases rounds.len(),
{
    if rounds.len() == 0 {
    } else {
        let prefix = rounds.drop_last();
        lemma_rounds_total_bounds(prefix, h);
        lemma_round_total_bounds(rounds.last()@, h);
        assert(prefix.len() * (u64::MAX as int) + (u64::MAX as int) == rounds.len() * (
        u64::MAX as int)) by (nonlinear_arith)
            requires
                prefix.len() == rounds.len() - 1,
        ;
    }
}

/// The measured total of one host in a running accumulator of sums.
pub open spec fn spec_acc_total(entries: Seq<(String, u128)>, h: Seq<char>) -> int
    decreases entries.len(),
{
    if entries.len() == 0 {
        0
    } else {
        spec_acc_total(entries.drop_last(), h) + if entries.last().0@ == h {
            entries.last().1 as int
        } else {
            0
        }
    }
}

/// Whether an accumulator holds a given hostname.
pub open spec fn spec_acc_has(entries: Seq<(String, u128)>, h: Seq<char>) -> bool {
    exists|k: int| 0 <= k < entries.len() && entries[k].0@ == h
}

/// Whether the hostnames of an accumulator are pairwise distinct.
pub open spec fn spec_acc_distinct(entries: Seq<(String, u128)>) -> bool {
    forall|k1: int, k2: int| 0 <= k1 < k2 < entries.len() ==> entries[k1].0@ != entries[k2].0@
}

/// An accumulator without a host carries a zero total for it.
proof fn lemma_acc_total_absent(entries: Seq<(String, u128)>, h: Seq<char>)
    requires
        !spec_acc_has(entries, h),
    ensures
        spec_acc_total(entries, h) == 0,
    decreases entries.len(),
{
    if entries.len() > 0 {
        assert(!spec_acc_has(entries.drop_last(), h)) by {
            if spec_acc_has(entries.drop_last(), h) {
                let k = choose|k: int|
                    0 <= k < entries.drop_last().len() && entries.drop_last()[k].0@ == h;
                assert(entries[k].0@ == h);
            }
        }
        lemma_acc_total_absent(entries.drop_last(), h);
        assert(entries[entries.len() - 1].0@ != h);
    }
}

/// In a distinct accumulator, an entry's value is its host's whole total.
proof fn lemma_acc_total_at(entries: Seq<(String, u128)>, k: int)
    requires
        spec_acc_distinct(entries),
        0 <= k < entries.len(),
    ensures
        spec_acc_total(entries, entries[k].0@) == entries[k].1,
    decreases entries.len(),
{
    let h = entries[k].0@;
    let prefix = entries.drop_last();
    assert(spec_acc_distinct(prefix));
    if k == entries.len() - 1 {
        assert(!spec_acc_has(prefix, h)) by {
            if spec_acc_has(prefix, h) {
                let j = choose|j: int| 0 <= j < prefix.len() && prefix[j].0@ == h;
                assert(entries[j].0@ == h);
            }
        }
        lemma_acc_total_absent(prefix, h);
    } else {
        assert(prefix[k] == entries[k]);
        lemma_acc_total_at(prefix, k);
        assert(entries.last().0@ != h);
    }
}

/// Removing an entry takes exactly its contribution out of every total.
proof fn lemma_acc_total_remove(entries: Seq<(String, u128)>, k: int)
    requires
        0 <= k < entries.len(),
    ensures
        forall|h: Seq<char>| #[trigger] spec_acc_total(entries.remove(k), h) == spec_acc_total(
            entries,
            h,
        ) - if entries[k].0@ == h {
            entries[k].1 as int
        } else {
            0
        },
    decreases entries.len(),
{
    assert forall|h: Seq<char>| #[trigger]
        spec_acc_total(entries.remove(k), h) == spec_acc_total(entries, h) - (if entries[k].0@
            == h {
            entries[k].1 as int
        } else {
            0
        }) by {
        if k == entries.len() - 1 {
            assert(entries.remove(k) =~= entries.drop_last());
        } else {
            let shorter = entries.drop_last();
            lemma_acc_total_remove(shorter, k);
            assert(shorter[k] == entries[k]);
            assert(entries.remove(k).len() > 0);
            assert(entries.remove(k).drop_last() =~= shorter.remove(k));
            assert(entries.remove(k).last() == entries.last());
            assert(spec_acc_total(entries.remove(k), h) == spec_acc_total(shorter.remove(k), h)
                + if entries.last().0@ == h {
                entries.last().1 as int
            } else {
                0
            });
        }
    }
}

/// Adding an entry at the end adds exactly its contribution to every total.
proof fn lemma_acc_total_push(entries: Seq<(String, u128)>, e: (String, u128))
    ensures
        forall|h: Seq<char>| #[trigger] spec_acc_total(entries.push(e), h) == spec_acc_total(
            entries,
            h,
        ) + if e.0@ == h {
            e.1 as int
        } else {
            0
        },
{
    assert forall|h: Seq<char>| #[trigger]
        spec_acc_total(entries.push(e), h) == spec_acc_total(entries, h) + (if e.0@ == h {
            e.1 as int
        } else {
            0
        }) by {
        assert(entries.push(e).drop_last() =~= entries);
        assert(entries.push(e).last() == e);
    }
}

/// Adds one measured value to a host's running sum in the accumulator.
fn add_sample(acc: &mut Vec<(String, u128)>, host: &String, val: u64)
    requires
        spec_acc_distinct(old(acc)@),
        spec_acc_total(old(acc)@, host@) + val <= u128::MAX,
    ensures
        spec_acc_distinct(final(acc)@),
        forall|h: Seq<char>| #[trigger] spec_acc_has(final(acc)@, h) <==> (spec_acc_has(
            old(acc)@,
            h,
        ) || h == host@),
        forall|h: Seq<char>| #[trigger] spec_acc_total(final(acc)@, h) == spec_acc_total(
            old(acc)@,
            h,
        ) + if h == host@ {
            val as int
        } else {
            0
        },
{
    let ghost orig = acc@;
    let mut k: usize = 0;
    while k < acc.len()
        invariant
            k <= acc.len(),
            acc@ == orig,
            orig == old(acc)@,
            spec_acc_distinct(orig),
            spec_acc_total(orig, host@) + val <= u128::MAX,
            forall|j: int| 0 <= j < k ==> orig[j].0@ != host@,
        decreases acc.len() - k,
    {
        if acc[k].0 == *host {
            proof {
                assert(orig[k as int].0@ == host@);
                lemma_acc_total_at(orig, k as int);
                lemma_acc_total_remove(orig, k as int);
                assert(orig[k as int].1 + val <= u128::MAX);
            }
            let entry = acc.remove(k);
            let sum = entry.1 + (val as u128);
            let ghost removed = acc@;
            acc.push((entry.0, sum));
            proof {
                lemma_acc_total_push(removed, (entry.0, sum));
                // distinctness: the remainder has no entry for this host
                assert(acc@[acc@.len() - 1].0@ == orig[k as int].0@);
                assert forall|k1: int, k2: int|
                    0 <= k1 < k2 < acc@.len() implies acc@[k1].0@ != acc@[k2].0@ by {
                    if k2 == acc@.len() - 1 {
                        // acc@[k1] stems from orig without index k
                        if k1 < k {
                            assert(acc@[k1] == orig[k1]);
                        } else {
                            assert(acc@[k1] == orig[k1 + 1]);
                        }
                    } else {
                        if k1 < k {
                            assert(acc@[k1] == orig[k1]);
                        } else {
                            assert(acc@[k1] == orig[k1 + 1]);
                        }
                        if k2 < k {
                            assert(acc@[k2] == orig[k2]);
                        } else {
                            assert(acc@[k2] == orig[k2 + 1]);
                        }
                    }
                }
                assert forall|h: Seq<char>| #[trigger]
                    spec_acc_has(acc@, h) <==> (spec_acc_has(orig, h) || h == host@) by {
                    if spec_acc_has(acc@, h) {
                        let j = choose|j: int| 0 <= j < acc@.len() && acc@[j].0@ == h;
                        if j == acc@.len() - 1 {
                            assert(h == host@);
                        } else {
                            if j < k {
                                assert(orig[j].0@ == h);
                            } else {
                                assert(orig[j + 1].0@ == h);
                            }
                        }
                    }
                    if spec_acc_has(orig, h) {
                        let j = choose|j: int| 0 <= j < orig.len() && orig[j].0@ == h;
                        if j == k {
                            assert(acc@[acc@.len() - 1].0@ == h);
                        } else if j < k {
                            assert(acc@[j].0@ == h);
                        } else {
                            assert(acc@[j - 1].0@ == h);
                        }
                    }
                    if h == host@ {
                        assert(acc@[acc@.len() - 1].0@ == h);
                    }
                }
            }
            return ;
        }
        k += 1;
    }
    proof {
        assert(!spec_acc_has(orig, host@));
        lemma_acc_total_absent(orig, host@);
    }
    let ghost before = acc@;
    acc.push((host.clone(), val as u128));
    proof {
        assert forall|h: Seq<char>| #[trigger]
            spec_acc_total(acc@, h) == spec_acc_total(orig, h) + (if h == host@ {
                val as int
            } else {
                0
            }) by {
            assert(acc@.drop_last() =~= orig);
            assert(acc@.last().0@ == host@);
        }
        assert forall|h: Seq<char>| #[trigger]
            spec_acc_has(acc@, h) <==> (spec_acc_has(orig, h) || h == host@) by {
            if spec_acc_has(acc@, h) {
                let j = choose|j: int| 0 <= j < acc@.len() && acc@[j].0@ == h;
                if j < acc@.len() - 1 {
                    assert(orig[j].0@ == h);
                }
            }
            if spec_acc_has(orig, h) {
                let j = choose|j: int| 0 <= j < orig.len() && orig[j].0@ == h;
                assert(acc@[j].0@ == h);
            }
            if h == host@ {
                assert(acc@[acc@.len() - 1].0@ == h);
            }
        }
        assert forall|k1: int, k2: int|
            0 <= k1 < k2 < acc@.len() implies acc@[k1].0@ != acc@[k2].0@ by {
            if k2 == acc@.len() - 1 {
                assert(acc@[k1] == orig[k1]);
                assert(!spec_acc_has(orig, host@));
            } else {
                assert(acc@[k1] == orig[k1]);
                assert(acc@[k2] == orig[k2]);
            }
        }
    }
}


/// A step of reading one more entry of a measurement round.
proof fn lemma_round_take_step(round: Seq<(String, u64)>, j: int)
    requires
        0 <= j < round.len(),
    ensures
        forall|h: Seq<char>| #[trigger] spec_round_total(round.take(j + 1), h) == spec_round_total(
            round.take(j),
            h,
        ) + if round[j].0@ == h {
            round[j].1 as int
        } else {
            0
        },
        forall|h: Seq<char>| #[trigger] spec_has_host(round.take(j + 1), h) <==> (spec_has_host(
            round.take(j),
            h,
        ) || round[j].0@ == h),
{
    assert(round.take(j + 1).drop_last() =~= round.take(j));
    assert(round.take(j + 1).last() == round[j]);
    assert forall|h: Seq<char>| #[trigger]
        spec_has_host(round.take(j + 1), h) <==> (spec_has_host(round.take(j), h) || round[j].0@
            == h) by {
        if spec_has_host(round.take(j + 1), h) {
            let k = choose|k: int| 0 <= k < round.take(j + 1).len() && (#[trigger] round.take(j + 1)[k]).0@ == h;
            if k < j {
                assert(round.take(j)[k].0@ == h);
            }
        }
        if spec_has_host(round.take(j), h) {
            let k = choose|k: int| 0 <= k < round.take(j).len() && (#[trigger] round.take(j)[k]).0@ == h;
            assert(round.take(j + 1)[k].0@ == h);
        }
        if round[j].0@ == h {
            assert(round.take(j + 1)[j].0@ == h);
        }
    }
}

/// A step of folding one more round into the summed totals.
proof fn lemma_rounds_take_step(rounds: Seq<Vec<(String, u64)>>, i: int)
    requires
        0 <= i < rounds.len(),
    ensures
        forall|h: Seq<char>| #[trigger] spec_rounds_total(rounds.take(i + 1), h)
            == spec_rounds_total(rounds.take(i), h) + spec_round_total(rounds[i]@, h),
        forall|h: Seq<char>| #[trigger] spec_rounds_have(rounds.take(i + 1), h) <==> (
        spec_rounds_have(rounds.take(i), h) || spec_has_host(rounds[i]@, h)),
{
    assert(rounds.take(i + 1).drop_last() =~= rounds.take(i));
    assert(rounds.take(i + 1).last() == rounds[i]);
    assert forall|h: Seq<char>| #[trigger]
        spec_rounds_have(rounds.take(i + 1), h) <==> (spec_rounds_have(rounds.take(i), h)
            || spec_has_host(rounds[i]@, h)) by {
        if spec_rounds_have(rounds.take(i + 1), h) {
            let k = choose|k: int|
                0 <= k < rounds.take(i + 1).len() && spec_has_host(#[trigger] rounds.take(i + 1)[k]@, h);
            if k < i {
                assert(spec_has_host(rounds.take(i)[k]@, h));
            } else {
                assert(rounds.take(i + 1)[k] == rounds[i]);
            }
        }
        if spec_rounds_have(rounds.take(i), h) {
            let k = choose|k: int|
                0 <= k < rounds.take(i).len() && spec_has_host(#[trigger] rounds.take(i)[k]@, h);
            assert(spec_has_host(rounds.take(i + 1)[k]@, h));
        }
        if spec_has_host(rounds[i]@, h) {
            assert(spec_has_host(rounds.take(i + 1)[i]@, h));
        }
    }
}

/// Sorter that sorts based on a ping test: servers whose measured mean
/// round-trip time is lower come first.
pub struct PingSorter {
    /// The results of the ping test: one entry per measured host, holding the
    /// mean round-trip time in microseconds.
    ping_results: Vec<(String, u64)>,
}

impl PingSorter {
    /// The per-domain latency map this sorter consults.
    pub closed spec fn spec_results(&self) -> Map<Seq<char>, u64> {
        spec_entry_map(self.ping_results@)
    }

    #[verifier::type_invariant]
    spec fn wf(self) -> bool {
        spec_distinct_hosts(self.ping_results@)
    }

    /// Builds the sorter out of batched-concurrent measurement rounds: each
    /// round holds one measured round-trip time (in microseconds) for every
    /// host that answered in that round. A host that answered at least once is
    /// mapped to the sum of its measurements divided by `tries`; a host that
    /// never answered is absent.
    pub fn from_rounds(rounds: &Vec<Vec<(String, u64)>>, tries: usize) -> (r: PingSorter)
        requires
            tries >= 1,
            rounds@.len() == tries,
            forall|k: int| 0 <= k < rounds@.len() ==> spec_distinct_hosts(#[trigger] rounds@[k]@),
        ensures
            forall|h: Seq<char>| #[trigger] r.spec_results().contains_key(h) <==> spec_rounds_have(
                rounds@,
                h,
            ),
            forall|h: Seq<char>| #[trigger] spec_rounds_have(rounds@, h)
                ==> r.spec_results()[h] as int == spec_rounds_total(rounds@, h) / (tries as int),
    {
        let ghost rs = rounds@;
        let mut acc: Vec<(String, u128)> = Vec::new();
        let mut ri: usize = 0;
        while ri < rounds.len()
            invariant
                ri <= rounds.len(),
                rs == rounds@,
                rs.len() == tries,
                tries >= 1,
                forall|k: int| 0 <= k < rs.len() ==> spec_distinct_hosts(#[trigger] rs[k]@),
                spec_acc_distinct(acc@),
                forall|h: Seq<char>| #[trigger] spec_acc_has(acc@, h) <==> spec_rounds_have(
                    rs.take(ri as int),
                    h,
                ),
                forall|h: Seq<char>| #[trigger] spec_acc_total(acc@, h) == spec_rounds_total(
                    rs.take(ri as int),
                    h,
                ),
            decreases rounds.len() - ri,
        {
            let round = &rounds[ri];
            let mut j: usize = 0;
            while j < round.len()
                invariant
                    j <= round@.len(),
                    ri < rs.len(),
                    rs == rounds@,
                    round@ == rs[ri as int]@,
                    rs.len() == tries,
                    tries >= 1,
                    forall|k: int| 0 <= k < rs.len() ==> spec_distinct_hosts(#[trigger] rs[k]@),
                    spec_acc_distinct(acc@),
                    forall|h: Seq<char>| #[trigger] spec_acc_has(acc@, h) <==> (spec_rounds_have(
                        rs.take(ri as int),
                        h,
                    ) || spec_has_host(round@.take(j as int), h)),
                    forall|h: Seq<char>| #[trigger] spec_acc_total(acc@, h) == spec_rounds_total(
                        rs.take(ri as int),
                        h,
                    ) + spec_round_total(round@.take(j as int), h),
                decreases round@.len() - j,
            {
                let host_val = &round[j];
                let ghost hv = host_val.0@;
                proof {
                    assert(spec_distinct_hosts(round@));
                    assert(spec_distinct_hosts(round@.take(j as int)));
                    lemma_rounds_total_bounds(rs.take(ri as int), hv);
                    assert(rs.take(ri as int).len() == ri as int);
                    assert(!spec_has_host(round@.take(j as int), hv)) by {
                        if spec_has_host(round@.take(j as int), hv) {
                            let k = choose|k: int|
                                0 <= k < round@.take(j as int).len() && round@.take(
                                    j as int,
                                )[k].0@ == hv;
                            assert(round@[k].0@ == round@[j as int].0@);
                        }
                    }
                    lemma_round_total_absent(round@.take(j as int), hv);
                    assert((ri as int) * (u64::MAX as int) + (u64::MAX as int) <= (
                    u128::MAX as int)) by (nonlinear_arith)
                        requires
                            0 <= ri as int <= 0xffff_ffff_ffff_ffff,
                    ;
                }
                add_sample(&mut acc, &host_val.0, host_val.1);
                proof {
                    lemma_round_take_step(round@, j as int);
                }
                j += 1;
            }
            proof {
                assert(round@.take(round@.len() as int) =~= round@);
                lemma_rounds_take_step(rs, ri as int);
            }
            ri += 1;
        }
        proof {
            assert(rs.take(rs.len() as int) =~= rs);
        }
        let ghost final_acc = acc@;
        let mut results: Vec<(String, u64)> = Vec::new();
        let mut k: usize = 0;
        while k < acc.len()
            invariant
                k <= acc@.len(),
                acc@ == final_acc,
                tries >= 1,
                rs == rounds@,
                rs.len() == tries,
                forall|kk: int| 0 <= kk < rs.len() ==> spec_distinct_hosts(#[trigger] rs[kk]@),
                spec_acc_distinct(acc@),
                forall|h: Seq<char>| #[trigger] spec_acc_has(acc@, h) <==> spec_rounds_have(rs, h),
                forall|h: Seq<char>| #[trigger] spec_acc_total(acc@, h) == spec_rounds_total(
                    rs,
                    h,
                ),
                results@.len() == k,
                forall|i: int| 0 <= i < k ==> (#[trigger] results@[i]).0@ == acc@[i].0@,
                forall|i: int| 0 <= i < k ==> (#[trigger] results@[i]).1 as int == spec_acc_total(
                    acc@,
                    acc@[i].0@,
                ) / (tries as int),
            decreases acc.len() - k,
        {
            let entry = &acc[k];
            proof {
                lemma_acc_total_at(acc@, k as int);
                assert(spec_acc_has(acc@, acc@[k as int].0@));
                lemma_rounds_total_bounds(rs, entry.0@);
                assert(entry.1 as int / (tries as int) <= u64::MAX as int) by (nonlinear_arith)
                    requires
                        tries >= 1,
                        0 <= entry.1 as int,
                        entry.1 as int <= (tries as int) * (u64::MAX as int),
                ;
            }
            let mean = (entry.1 / (tries as u128)) as u64;
            results.push((entry.0.clone(), mean));
            k += 1;
        }
        let r = PingSorter { ping_results: results };
        proof {
            assert forall|k1: int, k2: int|
                0 <= k1 < k2 < results@.len() implies results@[k1].0@ != results@[k2].0@ by {
                assert(results@[k1].0@ == acc@[k1].0@);
                assert(results@[k2].0@ == acc@[k2].0@);
            }
            lemma_entry_map(results@);
            assert forall|h: Seq<char>| #[trigger]
                r.spec_results().contains_key(h) <==> spec_rounds_have(rs, h) by {
                if r.spec_results().contains_key(h) {
                    let i = choose|i: int| 0 <= i < results@.len() && results@[i].0@ == h;
                    assert(spec_acc_has(acc@, acc@[i].0@));
                }
                if spec_rounds_have(rs, h) {
                    assert(spec_acc_has(acc@, h));
                    let i = choose|i: int| 0 <= i < acc@.len() && acc@[i].0@ == h;
                    assert(results@[i].0@ == h);
                    assert(spec_has_host(results@, h));
                }
            }
            assert forall|h: Seq<char>| #[trigger]
                spec_rounds_have(rs, h) implies r.spec_results()[h] as int == spec_rounds_total(
                rs,
                h,
            ) / (tries as int) by {
                assert(spec_acc_has(acc@, h));
                let i = choose|i: int| 0 <= i < acc@.len() && acc@[i].0@ == h;
                assert(results@[i].0@ == h);
                assert(r.spec_results()[results@[i].0@] == results@[i].1);
            }
        }
        r
    }
}


/// The sum of a list of measured round-trip times.
pub open spec fn spec_sum(samples: Seq<u64>) -> int
    decreases samples.len(),
{
    if samples.len() == 0 {
        0
    } else {
        spec_sum(samples.drop_last()) + samples.last()
    }
}

/// A sum of `n` measured values stays below `n` times the largest value.
proof fn lemma_sum_bounds(samples: Seq<u64>)
    ensures
        0 <= spec_sum(samples) <= samples.len() * (u64::MAX as int),
    decreases samples.len(),
{
    if samples.len() > 0 {
        lemma_sum_bounds(samples.drop_last());
        assert((samples.len() - 1) * (u64::MAX as int) + (u64::MAX as int) == samples.len() * (
        u64::MAX as int)) by (nonlinear_arith);
    }
}

impl PingSorter {
    /// Builds the sorter out of sequential per-host measurements: for each
    /// host, `tries` round-trip times (in microseconds) measured back to back.
    /// Each host is mapped to the sum of its measurements divided by `tries`.
    pub fn from_samples(samples: &Vec<(String, Vec<u64>)>, tries: usize) -> (r: PingSorter)
        requires
            tries >= 1,
            forall|k: int| 0 <= k < samples@.len() ==> (#[trigger] samples@[k]).1@.len() == tries,
            forall|k1: int, k2: int|
                0 <= k1 < k2 < samples@.len() ==> samples@[k1].0@ != samples@[k2].0@,
        ensures
            forall|h: Seq<char>| #[trigger] r.spec_results().contains_key(h) <==> (exists|k: int|
                0 <= k < samples@.len() && (#[trigger] samples@[k]).0@ == h),
            forall|k: int|
                0 <= k < samples@.len() ==> r.spec_results()[(#[trigger] samples@[k]).0@] as int
                    == spec_sum(samples@[k].1@) / (tries as int),
    {
        let ghost sm = samples@;
        let mut results: Vec<(String, u64)> = Vec::new();
        let mut k: usize = 0;
        while k < samples.len()
            invariant
                k <= sm.len(),
                sm == samples@,
                tries >= 1,
                forall|i: int| 0 <= i < sm.len() ==> (#[trigger] sm[i]).1@.len() == tries,
                forall|k1: int, k2: int| 0 <= k1 < k2 < sm.len() ==> sm[k1].0@ != sm[k2].0@,
                results@.len() == k,
                forall|i: int| 0 <= i < k ==> (#[trigger] results@[i]).0@ == sm[i].0@,
                forall|i: int| 0 <= i < k ==> (#[trigger] results@[i]).1 as int == spec_sum(
                    sm[i].1@,
                ) / (tries as int),
            decreases samples.len() - k,
        {
            let entry = &samples[k];
            let vals = &entry.1;
            let mut sum: u128 = 0;
            let mut j: usize = 0;
            while j < vals.len()
                invariant
                    j <= vals@.len(),
                    vals@.len() == tries,
                    tries >= 1,
                    sum == spec_sum(vals@.take(j as int)),
                decreases vals@.len() - j,
            {
                proof {
                    lemma_sum_bounds(vals@.take(j as int));
                    assert((j as int) * (u64::MAX as int) + (u64::MAX as int) <= (
                    u128::MAX as int)) by (nonlinear_arith)
                        requires
                            0 <= j as int <= 0xffff_ffff_ffff_ffff,
                    ;
                    assert(vals@.take(j + 1).drop_last() =~= vals@.take(j as int));
                    assert(vals@.take(j + 1).last() == vals@[j as int]);
                }
                sum = sum + (vals[j] as u128);
                j += 1;
            }
            proof {
                assert(vals@.take(vals@.len() as int) =~= vals@);
                lemma_sum_bounds(vals@);
                assert(sum as int / (tries as int) <= u64::MAX as int) by (nonlinear_arith)
                    requires
                        tries >= 1,
                        0 <= sum as int,
                        sum as int <= (tries as int) * (u64::MAX as int),
                ;
            }
            let mean = (sum / (tries as u128)) as u64;
            results.push((entry.0.clone(), mean));
            k += 1;
        }
        let r = PingSorter { ping_results: results };
        proof {
            assert forall|k1: int, k2: int|
                0 <= k1 < k2 < results@.len() implies results@[k1].0@ != results@[k2].0@ by {
                assert(results@[k1].0@ == sm[k1].0@);
                assert(results@[k2].0@ == sm[k2].0@);
            }
            lemma_entry_map(results@);
            assert forall|h: Seq<char>| #[trigger]
                r.spec_results().contains_key(h) <==> (exists|i: int|
                    0 <= i < sm.len() && (#[trigger] sm[i]).0@ == h) by {
                if r.spec_results().contains_key(h) {
                    let i = choose|i: int| 0 <= i < results@.len() && results@[i].0@ == h;
                    assert(sm[i].0@ == h);
                }
                if exists|i: int| 0 <= i < sm.len() && (#[trigger] sm[i]).0@ == h {
                    let i = choose|i: int| 0 <= i < sm.len() && (#[trigger] sm[i]).0@ == h;
                    assert(results@[i].0@ == h);
                    assert(spec_has_host(results@, h));
                }
            }
            assert forall|i: int|
                0 <= i < sm.len() implies r.spec_results()[(#[trigger] sm[i]).0@] as int
                == spec_sum(sm[i].1@) / (tries as int) by {
                assert(r.spec_results()[results@[i].0@] == results@[i].1);
            }
        }
        r
    }

    /// Whether a domain was measured, so that this sorter can compare it.
    pub fn has_measurement(&self, domain: &String) -> (r: bool)
        ensures
            r == self.spec_results().contains_key(domain@),
    {
        proof {
            lemma_entry_map(self.ping_results@);
        }
        let mut k: usize = 0;
        while k < self.ping_results.len()
            invariant
                k <= self.ping_results@.len(),
                forall|j: int| 0 <= j < k ==> (#[trigger] self.ping_results@[j]).0@ != domain@,
            decreases self.ping_results@.len() - k,
        {
            if self.ping_results[k].0 == *domain {
                proof {
                    lemma_entry_map(self.ping_results@);
                    assert(spec_has_host(self.ping_results@, domain@));
                }
                return true;
            }
            k += 1;
        }
        proof {
            lemma_entry_map(self.ping_results@);
            assert(!spec_has_host(self.ping_results@, domain@)) by {
                if spec_has_host(self.ping_results@, domain@) {
                    let j = choose|j: int|
                        0 <= j < self.ping_results@.len() && (#[trigger] self.ping_results@[j]).0@
                            == domain@;
                }
            }
        }
        false
    }

    /// The measured mean latency of one domain.
    fn lookup(&self, domain: &String) -> (r: u64)
        requires
            self.spec_results().contains_key(domain@),
        ensures
            r == self.spec_results()[domain@],
    {
        let mut k: usize = 0;
        while k < self.ping_results.len()
            invariant
                k <= self.ping_results@.len(),
                self.spec_results().contains_key(domain@),
                forall|j: int| 0 <= j < k ==> (#[trigger] self.ping_results@[j]).0@ != domain@,
            decreases self.ping_results@.len() - k,
        {
            if self.ping_results[k].0 == *domain {
                proof {
                    use_type_invariant(&*self);
                    lemma_entry_map(self.ping_results@);
                }
                return self.ping_results[k].1;
            }
            k += 1;
        }
        proof {
            lemma_entry_map(self.ping_results@);
            let j = choose|j: int|
                0 <= j < self.ping_results@.len() && (#[trigger] self.ping_results@[j]).0@
                    == domain@;
            assert(false);
        }
        unreached()
    }
}

impl Sorter for PingSorter {
    /// A server can be compared once its domain was measured.
    open spec fn spec_ready(&self, server: ServerView) -> bool {
        self.spec_results().contains_key(server.domain)
    }

    open spec fn spec_leq(&self, a: ServerView, b: ServerView) -> bool {
        self.spec_results()[a.domain] <= self.spec_results()[b.domain]
    }

    proof fn lemma_order(&self, a: ServerView, b: ServerView, c: ServerView) {
    }

    fn sort(&self, a: &Server, b: &Server) -> (r: Ordering) {
        let la = self.lookup(&a.domain);
        let lb = self.lookup(&b.domain);
        if la < lb {
            Ordering::Less
        } else if la == lb {
            Ordering::Equal
        } else {
            Ordering::Greater
        }
    }
}

} // verus!
