//! Aggregating per-URL check results and bounding how many URL checks run
//! at once. The requests themselves are network work and live outside the
//! library; it consumes their outcomes as plain values.

use vstd::prelude::*;
use vstd::set::axiom_set_insert_len;

verus! {

/// The statuses of the three requests made for one URL. A status of 0
/// records a request that failed before any status was received; it is a
/// sentinel value, not an error state.
#[derive(PartialEq, Eq, Structural, Clone, Copy, Debug)]
pub struct CheckResult {
    pub external_status: u16,
    pub ec_proxy_status: u16,
    pub mail_proxy_status: u16,
}

/// The status recorded for one leg: the received status code, or 0 when
/// the request failed before a status was received.
pub open spec fn spec_leg_status(outcome: Option<u16>) -> u16 {
    match outcome {
        Some(code) => code,
        None => 0u16,
    }
}

pub fn leg_status(outcome: Option<u16>) -> (s: u16)
    ensures
        s == spec_leg_status(outcome),
{
    match outcome {
        Some(code) => code,
        None => 0,
    }
}

/// The record the three leg outcomes for one URL combine to.
pub open spec fn spec_check_result(
    direct: Option<u16>,
    ec_proxy: Option<u16>,
    mail_proxy: Option<u16>,
) -> CheckResult {
    CheckResult {
        external_status: spec_leg_status(direct),
        ec_proxy_status: spec_leg_status(ec_proxy),
        mail_proxy_status: spec_leg_status(mail_proxy),
    }
}

/// One leg's outcome never influences another leg's recorded status:
/// however the middle leg's outcome changes, the other two fields stay
/// what their own legs gave, and likewise for the other legs by the
/// symmetry of `spec_check_result`.
pub proof fn lemma_failure_isolation(
    direct: Option<u16>,
    ec_a: Option<u16>,
    ec_b: Option<u16>,
    mail_proxy: Option<u16>,
)
    ensures
        spec_check_result(direct, ec_a, mail_proxy).external_status == spec_check_result(
            direct,
            ec_b,
            mail_proxy,
        ).external_status,
        spec_check_result(direct, ec_a, mail_proxy).mail_proxy_status == spec_check_result(
            direct,
            ec_b,
            mail_proxy,
        ).mail_proxy_status,
{
}

/// Combines the three leg outcomes for one URL. Each field depends on its
/// own leg alone, so one leg's failure never touches the other two.
pub fn make_check_result(
    direct: Option<u16>,
    ec_proxy: Option<u16>,
    mail_proxy: Option<u16>,
) -> (r: CheckResult)
    ensures
        r == spec_check_result(direct, ec_proxy, mail_proxy),
        r.external_status == spec_leg_status(direct),
        r.ec_proxy_status == spec_leg_status(ec_proxy),
        r.mail_proxy_status == spec_leg_status(mail_proxy),
{
    CheckResult {
        external_status: leg_status(direct),
        ec_proxy_status: leg_status(ec_proxy),
        mail_proxy_status: leg_status(mail_proxy),
    }
}

/// The mapping a sequence of URL/result pairs aggregates to, later pairs
/// overwriting earlier ones with the same URL.
pub open spec fn map_of(entries: Seq<(String, CheckResult)>) -> Map<Seq<char>, CheckResult>
    decreases entries.len(),
{
    if entries.len() == 0 {
        Map::empty()
    } else {
        map_of(entries.drop_last()).insert(entries.last().0@, entries.last().1)
    }
}

/// A map from URL to its check result, with unique keys and no order
/// guarantee.
pub struct ResultSet {
    entries: Vec<(String, CheckResult)>,
}

impl View for ResultSet {
    type V = Map<Seq<char>, CheckResult>;

    open spec fn view(&self) -> Map<Seq<char>, CheckResult> {
        map_of(self.entries_seq())
    }
}

pub open spec fn unique_keys(entries: Seq<(String, CheckResult)>) -> bool {
    forall|i: int, j: int|
        0 <= i < j < entries.len() ==> (#[trigger] entries[i]).0@ != (#[trigger] entries[j]).0@
}

/// A key is in the aggregated map exactly when some pair carries it.
proof fn lemma_map_of_contains(entries: Seq<(String, CheckResult)>, k: Seq<char>)
    ensures
        map_of(entries).contains_key(k) <==> exists|i: int|
            0 <= i < entries.len() && (#[trigger] entries[i]).0@ == k,
    decreases entries.len(),
{
    if entries.len() > 0 {
        lemma_map_of_contains(entries.drop_last(), k);
        if entries.last().0@ == k {
            assert(entries[entries.len() - 1].0@ == k);
        } else if map_of(entries).contains_key(k) {
            let i = choose|i: int| 0 <= i < entries.len() - 1 && (#[trigger] entries.drop_last()[i]).0@ == k;
            assert(entries[i].0@ == k);
        } else {
            assert forall|i: int| 0 <= i < entries.len() && (#[trigger] entries[i]).0@ == k implies false by {
                assert(entries.drop_last()[i].0@ == k);
            }
        }
    }
}

/// The aggregated map's domain is always finite.
proof fn lemma_map_of_finite(entries: Seq<(String, CheckResult)>)
    ensures
        map_of(entries).dom().finite(),
    decreases entries.len(),
{
    if entries.len() > 0 {
        lemma_map_of_finite(entries.drop_last());
    }
}

/// Replacing the pair that carries a key with another pair carrying the
/// same key updates the aggregated map at that key, when keys are unique.
proof fn lemma_map_of_update(entries: Seq<(String, CheckResult)>, i: int, p: (String, CheckResult))
    requires
        unique_keys(entries),
        0 <= i < entries.len(),
        p.0@ == entries[i].0@,
    ensures
        map_of(entries.update(i, p)) == map_of(entries).insert(p.0@, p.1),
    decreases entries.len(),
{
    let updated = entries.update(i, p);
    if i == entries.len() - 1 {
        assert(updated.drop_last() =~= entries.drop_last());
        assert(map_of(updated) =~= map_of(entries).insert(p.0@, p.1));
    } else {
        assert(unique_keys(entries.drop_last())) by {
            assert(forall|a: int|
                0 <= a < entries.len() - 1 ==> #[trigger] entries.drop_last()[a] == entries[a]);
        }
        lemma_map_of_update(entries.drop_last(), i, p);
        assert(updated.drop_last() =~= entries.drop_last().update(i, p));
        assert(updated.last() == entries.last());
        assert(entries[i].0@ != entries.last().0@);
        assert(map_of(updated) =~= map_of(entries).insert(p.0@, p.1));
    }
}

/// With unique keys, the aggregated map has exactly one entry per pair.
pub proof fn lemma_result_count(entries: Seq<(String, CheckResult)>)
    requires
        unique_keys(entries),
    ensures
        map_of(entries).dom().len() == entries.len(),
    decreases entries.len(),
{
    if entries.len() > 0 {
        assert(unique_keys(entries.drop_last())) by {
            assert(forall|a: int|
                0 <= a < entries.len() - 1 ==> #[trigger] entries.drop_last()[a] == entries[a]);
        }
        lemma_result_count(entries.drop_last());
        lemma_map_of_finite(entries.drop_last());
        lemma_map_of_contains(entries.drop_last(), entries.last().0@);
        assert(!map_of(entries.drop_last()).contains_key(entries.last().0@)) by {
            if exists|i: int|
                0 <= i < entries.len() - 1 && (#[trigger] entries.drop_last()[i]).0@
                    == entries.last().0@ {
                let i = choose|i: int|
                    0 <= i < entries.len() - 1 && (#[trigger] entries.drop_last()[i]).0@
                        == entries.last().0@;
                assert(entries[i].0@ == entries[entries.len() - 1].0@);
            }
        }
    }
}

impl ResultSet {
    /// The recorded pairs, the mathematical value the map view is built
    /// from.
    pub closed spec fn entries_seq(&self) -> Seq<(String, CheckResult)> {
        self.entries@
    }

    /// Keys are unique: each URL has at most one entry.
    pub open spec fn wf(&self) -> bool {
        unique_keys(self.entries_seq())
    }

    pub fn new() -> (r: ResultSet)
        ensures
            r@ == Map::<Seq<char>, CheckResult>::empty(),
            r.wf(),
    {
        ResultSet { entries: Vec::new() }
    }

    /// Records the result for a URL; a result already recorded for the
    /// same URL is overwritten, so the last write wins.
    pub fn insert(&mut self, url: String, result: CheckResult)
        requires
            old(self).wf(),
        ensures
            final(self).wf(),
            final(self)@ == old(self)@.insert(url@, result),
            final(self)@.dom().len() == old(self)@.dom().len() + (if old(self)@.contains_key(
                url@,
            ) {
                0int
            } else {
                1int
            }),
    {
        proof {
            lemma_map_of_contains(self.entries@, url@);
            lemma_map_of_finite(self.entries@);
            lemma_result_count(self.entries@);
        }
        let n = self.entries.len();
        let mut i: usize = 0;
        while i < n
            invariant
                self.entries@ == old(self).entries@,
                n == self.entries@.len(),
                0 <= i <= n,
                unique_keys(self.entries@),
                forall|j: int| 0 <= j < i ==> (#[trigger] self.entries@[j]).0@ != url@,
            decreases n - i,
        {
            if self.entries[i].0 == url {
                proof {
                    lemma_map_of_contains(self.entries@, url@);
                    lemma_map_of_finite(self.entries@);
                    lemma_result_count(self.entries@);
                    lemma_map_of_update(self.entries@, i as int, (url, result));
                    axiom_set_insert_len(map_of(self.entries@).dom(), url@);
                }
                let ghost before = self.entries@;
                self.entries[i] = (url, result);
                proof {
                    assert(self.entries@ == before.update(i as int, (url, result)));
                    lemma_result_count(self.entries@);
                }
                return ;
            }
            i = i + 1;
        }
        proof {
            lemma_map_of_contains(self.entries@, url@);
            lemma_map_of_finite(self.entries@);
            lemma_result_count(self.entries@);
            axiom_set_insert_len(map_of(self.entries@).dom(), url@);
        }
        self.entries.push((url, result));
        proof {
            assert(self.entries@.drop_last() =~= old(self).entries@);
            lemma_result_count(self.entries@);
        }
    }

    /// The recorded result for a URL, if any.
    pub fn get(&self, url: &String) -> (r: Option<CheckResult>)
        requires
            self.wf(),
        ensures
            match r {
                Some(result) => self@.contains_key(url@) && result == self@[url@],
                None => !self@.contains_key(url@),
            },
    {
        proof {
            lemma_map_of_contains(self.entries@, url@);
        }
        let n = self.entries.len();
        let mut i: usize = 0;
        while i < n
            invariant
                n == self.entries@.len(),
                0 <= i <= n,
                unique_keys(self.entries@),
                forall|j: int| 0 <= j < i ==> (#[trigger] self.entries@[j]).0@ != url@,
            decreases n - i,
        {
            if self.entries[i].0.eq(url) {
                proof {
                    assert(forall|j: int|
                        i < j < self.entries@.len() ==> (#[trigger] self.entries@[j]).0@
                            != self.entries@[i as int].0@);
                    lemma_map_of_index(self.entries@, i as int);
                }
                return Some(self.entries[i].1);
            }
            i = i + 1;
        }
        None
    }

    /// How many URLs have a recorded result.
    pub fn len(&self) -> (n: usize)
        requires
            self.wf(),
        ensures
            n == self@.dom().len(),
    {
        proof {
            lemma_result_count(self.entries@);
        }
        self.entries.len()
    }

    /// The recorded entries, one per URL, in no guaranteed order.
    pub fn entries(&self) -> (r: &Vec<(String, CheckResult)>)
        ensures
            r@ == self.entries_seq(),
            map_of(r@) == self@,
    {
        &self.entries
    }
}

/// Under unique keys is the value at a pair's key that pair's value —
/// provided no later pair shares it.
proof fn lemma_map_of_index(entries: Seq<(String, CheckResult)>, i: int)
    requires
        0 <= i < entries.len(),
        forall|j: int| i < j < entries.len() ==> (#[trigger] entries[j]).0@ != entries[i].0@,
    ensures
        map_of(entries).contains_key(entries[i].0@),
        map_of(entries)[entries[i].0@] == entries[i].1,
    decreases entries.len(),
{
    if i < entries.len() - 1 {
        assert(forall|j: int|
            i < j < entries.len() - 1 ==> #[trigger] entries.drop_last()[j] == entries[j]);
        assert(entries.drop_last()[i] == entries[i]);
        lemma_map_of_index(entries.drop_last(), i);
    }
}

/// Aggregates completed URL/result pairs into a result set, later pairs
/// overwriting earlier ones with the same URL.
pub fn collect_results(pairs: &Vec<(String, CheckResult)>) -> (r: ResultSet)
    ensures
        r.wf(),
        r@ == map_of(pairs@),
{
    let mut out = ResultSet::new();
    let n = pairs.len();
    let mut i: usize = 0;
    while i < n
        invariant
            n == pairs@.len(),
            0 <= i <= n,
            out.wf(),
            out@ == map_of(pairs@.take(i as int)),
        decreases n - i,
    {
        let url = pairs[i].0.clone();
        let result = pairs[i].1;
        out.insert(url, result);
        proof {
            assert(pairs@.take(i as int + 1).drop_last() =~= pairs@.take(i as int));
            assert(pairs@.take(i as int + 1).last() == pairs@[i as int]);
        }
        i = i + 1;
    }
    proof {
        assert(pairs@.take(n as int) =~= pairs@);
    }
    out
}

/// The counting admission gate that bounds how many URL checks are in
/// flight at once. Acquiring admits a check when a slot is free; releasing
/// frees its slot when the check's three requests have all completed.
pub struct Gate {
    limit: usize,
    in_flight: usize,
}

impl Gate {
    /// The bound on simultaneously running URL checks.
    pub closed spec fn limit(&self) -> usize {
        self.limit
    }

    /// How many URL checks hold a slot right now.
    pub closed spec fn in_flight(&self) -> usize {
        self.in_flight
    }

    /// At most `limit` URL checks hold slots at any instant.
    pub open spec fn wf(&self) -> bool {
        self.in_flight() <= self.limit()
    }

    pub fn new(limit: usize) -> (g: Gate)
        ensures
            g.limit() == limit,
            g.in_flight() == 0,
            g.wf(),
    {
        Gate { limit, in_flight: 0 }
    }

    /// Admits one check when a slot is free; admission succeeds exactly
    /// when fewer than `limit` checks are in flight.
    pub fn try_acquire(&mut self) -> (ok: bool)
        requires
            old(self).wf(),
        ensures
            final(self).wf(),
            final(self).limit() == old(self).limit(),
            ok == (old(self).in_flight() < old(self).limit()),
            final(self).in_flight() == if ok {
                old(self).in_flight() + 1
            } else {
                old(self).in_flight() as int
            },
    {
        if self.in_flight < self.limit {
            self.in_flight = self.in_flight + 1;
            true
        } else {
            false
        }
    }

    /// Releases the slot of a completed check; the release is
    /// unconditional, whether its requests succeeded or failed.
    pub fn release(&mut self)
        requires
            old(self).wf(),
            old(self).in_flight() > 0,
        ensures
            final(self).wf(),
            final(self).limit() == old(self).limit(),
            final(self).in_flight() == old(self).in_flight() - 1,
    {
        self.in_flight = self.in_flight - 1;
    }

    pub fn current_in_flight(&self) -> (n: usize)
        ensures
            n == self.in_flight(),
    {
        self.in_flight
    }

    pub fn current_limit(&self) -> (n: usize)
        ensures
            n == self.limit(),
    {
        self.limit
    }
}

/// However a gate was driven, a well-formed gate never has more checks in
/// flight than its limit.
pub proof fn lemma_gate_bounded(g: &Gate)
    requires
        g.wf(),
    ensures
        g.in_flight() <= g.limit(),
{
}

} // verus!
