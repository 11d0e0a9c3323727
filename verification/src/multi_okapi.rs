//! Failover between several Okapi endpoints: health tracking, the choice of
//! a healthy endpoint and the rotation to the next one.
use vstd::prelude::*;
use vstd::string::*;

verus! {

/// An Okapi endpoint with its health.
#[derive(Debug, Clone)]
pub struct OkapiEndpoint {
    pub url: String,
    pub healthy: bool,
    pub consecutive_failures: u32,
}

impl View for OkapiEndpoint {
    type V = (Seq<char>, bool, u32);

    open spec fn view(&self) -> (Seq<char>, bool, u32) {
        (self.url@, self.healthy, self.consecutive_failures)
    }
}

impl OkapiEndpoint {
    /// A new endpoint, healthy, with no failure.
    pub fn new(url: String) -> (r: OkapiEndpoint)
        ensures
            r@ == (url@, true, 0u32),
    {
        OkapiEndpoint { url, healthy: true, consecutive_failures: 0 }
    }

    /// A success: healthy again, the failure count reset.
    pub fn mark_healthy(&mut self)
        ensures
            final(self)@ == (old(self).url@, true, 0u32),
    {
        self.healthy = true;
        self.consecutive_failures = 0;
    }

    /// A failure: unhealthy, one more consecutive failure.
    pub fn mark_unhealthy(&mut self)
        requires
            old(self).consecutive_failures < u32::MAX,
        ensures
            final(self)@ == (old(self).url@, false, (old(self).consecutive_failures + 1) as u32),
    {
        self.healthy = false;
        self.consecutive_failures = self.consecutive_failures + 1;
    }

    /// Whether the endpoint is healthy.
    pub fn is_healthy(&self) -> (r: bool)
        ensures
            r == self.healthy,
    {
        self.healthy
    }

    fn duplicate(&self) -> (r: OkapiEndpoint)
        ensures
            r@ == self@,
    {
        OkapiEndpoint {
            url: String::from_str(self.url.as_str()),
            healthy: self.healthy,
            consecutive_failures: self.consecutive_failures,
        }
    }
}

/// Several endpoints and the one in use.
#[derive(Debug)]
pub struct MultiOkapiClient {
    endpoints: Vec<OkapiEndpoint>,
    current_index: usize,
}

/// The first healthy endpoint met going round from `start`, `k` steps on.
pub open spec fn healthy_from(eps: Seq<OkapiEndpoint>, start: int, k: int) -> Option<int>
    decreases eps.len() - k,
{
    if k < 0 || k >= eps.len() {
        None
    } else if eps[(start + k) % (eps.len() as int)].healthy {
        Some((start + k) % (eps.len() as int))
    } else {
        healthy_from(eps, start, k + 1)
    }
}

/// The number of healthy endpoints among the first `n`.
pub open spec fn healthy_upto(eps: Seq<OkapiEndpoint>, n: int) -> nat
    decreases n,
{
    if n <= 0 {
        0
    } else {
        healthy_upto(eps, n - 1) + if eps[n - 1].healthy { 1nat } else { 0nat }
    }
}

impl MultiOkapiClient {
    /// The endpoints, in order.
    pub closed spec fn endpoints_view(&self) -> Seq<(Seq<char>, bool, u32)> {
        self.endpoints@.map_values(|e: OkapiEndpoint| e@)
    }

    /// The position of the endpoint in use.
    pub closed spec fn current(&self) -> int {
        self.current_index as int
    }

    /// The endpoint in use is one of the endpoints, unless there is none.
    pub closed spec fn wf(&self) -> bool {
        self.endpoints@.len() == 0 || self.current_index < self.endpoints@.len()
    }

    /// The first healthy endpoint going round from the one in use, if any.
    pub closed spec fn first_healthy(&self) -> Option<int> {
        healthy_from(self.endpoints@, self.current_index as int, 0)
    }

    /// The number of healthy endpoints.
    pub closed spec fn healthy_total(&self) -> nat {
        healthy_upto(self.endpoints@, self.endpoints@.len() as int)
    }

    /// A client over `endpoints`, all healthy, the first in use.
    pub fn new(endpoints: Vec<String>) -> (r: MultiOkapiClient)
        ensures
            r.wf(),
            r.current() == 0,
            r.endpoints_view().len() == endpoints@.len(),
            forall|i: int| 0 <= i < endpoints@.len() ==> #[trigger] r.endpoints_view()[i] == (endpoints@[i]@, true, 0u32),
    {
        let mut eps: Vec<OkapiEndpoint> = Vec::new();
        let mut i: usize = 0;
        while i < endpoints.len()
            invariant
                i <= endpoints@.len(),
                eps@.len() == i,
                forall|k: int| 0 <= k < i ==> #[trigger] eps@[k]@ == (endpoints@[k]@, true, 0u32),
            decreases endpoints@.len() - i,
        {
            eps.push(OkapiEndpoint::new(String::from_str(endpoints[i].as_str())));
            i = i + 1;
        }
        let r = MultiOkapiClient { endpoints: eps, current_index: 0 };
        proof {
            assert forall|i: int| 0 <= i < endpoints@.len() implies #[trigger] r.endpoints_view()[i] == (endpoints@[i]@, true, 0u32) by {
                assert(r.endpoints_view()[i] == eps@[i]@);
            }
        }
        r
    }

    /// The number of endpoints.
    pub fn endpoint_count(&self) -> (r: usize)
        ensures
            r == self.endpoints_view().len(),
    {
        self.endpoints.len()
    }

    /// The number of healthy endpoints.
    pub fn healthy_count(&self) -> (r: usize)
        ensures
            r == self.healthy_total(),
    {
        let mut count: usize = 0;
        let mut i: usize = 0;
        while i < self.endpoints.len()
            invariant
                i <= self.endpoints@.len(),
                count == healthy_upto(self.endpoints@, i as int),
                count <= i,
            decreases self.endpoints@.len() - i,
        {
            if self.endpoints[i].is_healthy() {
                count = count + 1;
            }
            i = i + 1;
        }
        count
    }

    /// The first healthy endpoint going round from the one in use; when
    /// none is healthy, the first endpoint anyway.
    pub fn get_healthy_endpoint(&self) -> (r: Option<OkapiEndpoint>)
        requires
            self.wf(),
            self.endpoints_view().len() > 0,
        ensures
            match self.first_healthy() {
                Some(i) => r matches Some(e) && e@ == self.endpoints_view()[i],
                None => r matches Some(e) && e@ == self.endpoints_view()[0],
            },
    {
        let n = self.endpoints.len();
        let mut k: usize = 0;
        proof {
            assert(self.endpoints_view().len() == n);
        }
        while k < n
            invariant
                n == self.endpoints@.len(),
                n > 0,
                self.current_index < n,
                k <= n,
                healthy_from(self.endpoints@, self.current_index as int, 0)
                    == healthy_from(self.endpoints@, self.current_index as int, k as int),
            decreases n - k,
        {
            let idx = ((self.current_index as u128 + k as u128) % (n as u128)) as usize;
            proof {
                assert(idx == (self.current_index as int + k as int) % (n as int));
            }
            if self.endpoints[idx].is_healthy() {
                proof {
                    assert(self.endpoints_view()[idx as int] == self.endpoints@[idx as int]@);
                }
                return Some(self.endpoints[idx].duplicate());
            }
            k = k + 1;
        }
        proof {
            assert(self.endpoints_view()[0] == self.endpoints@[0]@);
        }
        Some(self.endpoints[0].duplicate())
    }

    /// Move to the next endpoint, going round.
    pub fn failover(&mut self)
        requires
            old(self).wf(),
            old(self).endpoints_view().len() > 0,
        ensures
            final(self).wf(),
            final(self).endpoints_view() == old(self).endpoints_view(),
            final(self).current() == (old(self).current() + 1) % (old(self).endpoints_view().len() as int),
    {
        let n = self.endpoints.len();
        proof {
            if self.current_index + 1 < n {
                vstd::arithmetic::div_mod::lemma_small_mod((self.current_index + 1) as nat, n as nat);
            } else {
                vstd::arithmetic::div_mod::lemma_mod_self_0(n as int);
            }
        }
        self.current_index = if self.current_index + 1 >= n { (self.current_index + 1) - n } else { self.current_index + 1 };
    }

    /// Record the outcome of a call to endpoint `i`: a success marks it
    /// healthy, a failure unhealthy; a position without an endpoint changes
    /// nothing.
    pub fn record_outcome(&mut self, i: usize, succeeded: bool)
        requires
            old(self).wf(),
            i < old(self).endpoints_view().len() && !succeeded ==> old(self).endpoints_view()[i as int].2 < u32::MAX,
        ensures
            final(self).wf(),
            final(self).current() == old(self).current(),
            final(self).endpoints_view() == if i < old(self).endpoints_view().len() {
                let e = old(self).endpoints_view()[i as int];
                old(self).endpoints_view().update(
                    i as int,
                    if succeeded { (e.0, true, 0u32) } else { (e.0, false, (e.2 + 1) as u32) },
                )
            } else {
                old(self).endpoints_view()
            },
    {
        if i < self.endpoints.len() {
            let mut e = self.endpoints[i].duplicate();
            proof {
                assert(old(self).endpoints_view()[i as int] == old(self).endpoints@[i as int]@);
            }
            if succeeded {
                e.mark_healthy();
            } else {
                e.mark_unhealthy();
            }
            self.endpoints.set(i, e);
            proof {
                assert(self.endpoints_view() =~= old(self).endpoints_view().update(i as int, e@));
            }
        }
    }
}

/// The endpoints named in a comma-separated list, each trimmed.
pub fn endpoints_from_list(list: &str) -> (r: Vec<String>)
    ensures
        r@.map_values(|s: String| s@) == crate::text::split_trimmed(list@, ','),
{
    crate::text::split_and_trim(list, ',')
}

} // verus!
