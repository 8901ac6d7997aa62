use vstd::prelude::*;
use vstd::string::*;
use vstd::seq_lib::group_to_multiset_ensures;

verus! {

/// Whether text parses as a valid URL, as the url crate decides it; the
/// answer depends on the text alone.
pub uninterp spec fn url_ok(s: Seq<char>) -> bool;

/// Relies on url::Url::parse: Ok exactly on text that parses as an
/// absolute URL.
#[verifier::external_body]
fn parse_url_valid(s: &str) -> (r: bool)
    ensures
        r == url_ok(s@),
{
    url::Url::parse(s).is_ok()
}

/// Relies on rand: SliceRandom::shuffle with an StdRng seeded from system
/// entropy permutes the elements in place; which permutation comes out
/// depends on the entropy, so only the multiset of elements is promised.
#[verifier::external_body]
fn shuffle_usizes(v: &mut Vec<usize>)
    ensures
        final(v)@.to_multiset() == old(v)@.to_multiset(),
{
    let mut rng: rand::rngs::StdRng = <rand::rngs::StdRng as rand::SeedableRng>::from_entropy();
    rand::seq::SliceRandom::shuffle(v.as_mut_slice(), &mut rng);
}

/// The connection target for one node: the credentials are embedded when
/// both are non-empty, otherwise the plain address is used.
pub open spec fn node_url(es_id: Seq<char>, es_pw: Seq<char>, host: Seq<char>) -> Seq<char> {
    if es_id.len() > 0 && es_pw.len() > 0 {
        "http://"@ + es_id + seq![':'] + es_pw + seq!['@'] + host
    } else {
        "http://"@ + host
    }
}

/// Builds the connection target, as `node_url` describes.
pub fn build_node_url(es_id: &str, es_pw: &str, host: &str) -> (r: String)
    ensures
        r@ == node_url(es_id@, es_pw@, host@),
{
    let mut s: String = String::from_str("http://");
    if es_id.unicode_len() != 0 && es_pw.unicode_len() != 0 {
        s.append(es_id);
        s.push(':');
        s.append(es_pw);
        s.push('@');
        s.append(host);
        assert(s@ =~= "http://"@ + es_id@ + seq![':'] + es_pw@ + seq!['@'] + host@);
    } else {
        s.append(host);
        assert(s@ =~= "http://"@ + host@);
    }
    s
}

/// One cluster member: its address and the connection target built for it.
#[derive(Debug, Clone)]
pub struct EsClient {
    pub host: String,
    pub url: String,
}

/// A node address that does not parse as a URL, found at construction.
#[derive(Debug, Clone)]
pub struct ConfigError {
    pub bad_host: String,
}

/// The write failed on every node; the last node's error is kept.
#[derive(Debug, Clone)]
pub enum WriteError {
    AllNodesFailed { last_error: Option<String> },
}

/// The write repository: the fixed set of storage nodes and the index-name
/// prefix, read-only after construction.
#[derive(Debug, Clone)]
pub struct EsRepositoryPub {
    es_clients: Vec<EsClient>,
    index_pattern: String,
}

impl EsRepositoryPub {
    pub closed spec fn spec_clients(&self) -> Seq<EsClient> {
        self.es_clients@
    }

    pub open spec fn spec_len(&self) -> nat {
        self.spec_clients().len()
    }

    pub closed spec fn spec_index_pattern(&self) -> Seq<char> {
        self.index_pattern@
    }

    /// Builds one authenticated connection target per address; fails with
    /// the first address whose target does not parse as a URL. The
    /// connections themselves, with their fixed request timeout, are
    /// established outside from the targets kept here.
    pub fn new(hosts: Vec<String>, es_id: &str, es_pw: &str, index_pattern: &str) -> (r: Result<
        Self,
        ConfigError,
    >)
        ensures
            r is Ok <==> (forall|i: int|
                0 <= i < hosts@.len() ==> url_ok(node_url(es_id@, es_pw@, #[trigger] hosts@[i]@))),
            r matches Ok(repo) ==> {
                &&& repo.spec_len() == hosts@.len()
                &&& (forall|i: int|
                    0 <= i < hosts@.len() ==> (#[trigger] repo.spec_clients()[i]).host@
                        == hosts@[i]@)
                &&& (forall|i: int|
                    0 <= i < hosts@.len() ==> (#[trigger] repo.spec_clients()[i]).url@ == node_url(
                        es_id@,
                        es_pw@,
                        hosts@[i]@,
                    ))
                &&& repo.spec_index_pattern() == index_pattern@
            },
            r matches Err(e) ==> exists|i: int|
                0 <= i < hosts@.len() && #[trigger] hosts@[i]@ == e.bad_host@ && !url_ok(
                    node_url(es_id@, es_pw@, e.bad_host@),
                ),
    {
        let mut es_clients: Vec<EsClient> = Vec::new();
        let n: usize = hosts.len();
        let mut i: usize = 0;
        while i < n
            invariant
                0 <= i <= n,
                n == hosts@.len(),
                es_clients@.len() == i,
                forall|j: int|
                    0 <= j < i ==> (#[trigger] es_clients@[j]).host@ == hosts@[j]@
                        && es_clients@[j].url@ == node_url(es_id@, es_pw@, hosts@[j]@),
                forall|j: int|
                    0 <= j < i ==> url_ok(node_url(es_id@, es_pw@, #[trigger] hosts@[j]@)),
            decreases n - i,
        {
            let url: String = build_node_url(es_id, es_pw, hosts[i].as_str());
            if !parse_url_valid(url.as_str()) {
                return Err(ConfigError { bad_host: hosts[i].clone() });
            }
            es_clients.push(EsClient { host: hosts[i].clone(), url });
            i = i + 1;
        }
        Ok(EsRepositoryPub { es_clients, index_pattern: String::from_str(index_pattern) })
    }

    /// The configured naming prefix, for callers that compute the
    /// caller-owned index name.
    pub fn index_pattern(&self) -> (r: &String)
        ensures
            r@ == self.spec_index_pattern(),
    {
        &self.index_pattern
    }

    pub fn es_clients(&self) -> (r: &Vec<EsClient>)
        ensures
            r@ == self.spec_clients(),
    {
        &self.es_clients
    }

    pub fn len(&self) -> (n: usize)
        ensures
            n == self.spec_len(),
    {
        self.es_clients.len()
    }

    /// A fresh order over the node positions for one write: a permutation
    /// of 0..len, drawn from system entropy, private to the call.
    pub fn shuffled_order(&self) -> (r: Vec<usize>)
        ensures
            r@.len() == self.spec_len(),
            r@.to_multiset() == Seq::new(self.spec_len(), |i: int| i as usize).to_multiset(),
            forall|j: int| 0 <= j < r@.len() ==> (#[trigger] r@[j]) < self.spec_len(),
            forall|k: int| 0 <= k < self.spec_len() ==> r@.contains(#[trigger] (k as usize)),
            r@.no_duplicates(),
    {
        let n: usize = self.es_clients.len();
        let ghost ident = Seq::new(n as nat, |i: int| i as usize);
        let mut v: Vec<usize> = Vec::new();
        let mut i: usize = 0;
        while i < n
            invariant
                0 <= i <= n,
                v@.len() == i,
                forall|j: int| 0 <= j < i ==> #[trigger] v@[j] == j as usize,
            decreases n - i,
        {
            v.push(i);
            i = i + 1;
        }
        assert(v@ =~= ident);
        shuffle_usizes(&mut v);
        proof {
            broadcast use group_to_multiset_ensures;

            assert(v@.to_multiset() == ident.to_multiset());
            assert(v@.to_multiset().len() == v@.len());
            assert(ident.to_multiset().len() == ident.len());
            assert(forall|j: int| 0 <= j < n ==> #[trigger] ident[j] == j as usize);
            assert(ident.no_duplicates());
            ident.lemma_multiset_has_no_duplicates();
            assert forall|k: int| 0 <= k < n implies v@.contains(#[trigger] (k as usize)) by {
                assert(ident[k] == k as usize);
                assert(ident.contains(k as usize));
                assert(ident.to_multiset().count(k as usize) > 0);
            }
            assert forall|j: int| 0 <= j < v@.len() implies (#[trigger] v@[j]) < n by {
                assert(v@.contains(v@[j]));
                assert(v@.to_multiset().count(v@[j]) > 0);
                assert(ident.contains(v@[j]));
                let w = choose|w: int| 0 <= w < ident.len() && ident[w] == v@[j];
                assert(ident[w] == w as usize);
            }
            assert forall|x: usize| v@.to_multiset().count(x) <= 1 by {
                if ident.to_multiset().count(x) > 0 {
                    assert(ident.contains(x));
                }
            }
            v@.lemma_multiset_has_no_duplicates_conv();
        }
        v
    }
}

/// What one write attempt against one node came to: a success status, or a
/// transport failure or non-success status, both carried the same way.
#[derive(Debug, Clone)]
pub enum AttemptOutcome {
    Success,
    Failure(String),
}

/// The position of the first successful attempt, or the number of attempts
/// when none succeeded.
pub open spec fn first_success(o: Seq<AttemptOutcome>) -> int
    decreases o.len(),
{
    if o.len() == 0 {
        0
    } else if o[0] is Success {
        0
    } else {
        1 + first_success(o.drop_first())
    }
}

pub proof fn lemma_first_success(o: Seq<AttemptOutcome>)
    ensures
        0 <= first_success(o) <= o.len(),
        first_success(o) < o.len() ==> o[first_success(o)] is Success,
        forall|j: int| 0 <= j < first_success(o) ==> !((#[trigger] o[j]) is Success),
    decreases o.len(),
{
    if o.len() > 0 && !(o[0] is Success) {
        lemma_first_success(o.drop_first());
        assert forall|j: int| 0 <= j < first_success(o) implies !((#[trigger] o[j]) is Success) by {
            if j >= 1 {
                assert(o.drop_first()[j - 1] == o[j]);
            }
        }
    }
}

/// The outcome of one whole write call: how many nodes were tried, and the
/// position that succeeded or the error after all failed.
pub struct FailoverReport {
    pub attempts: usize,
    pub result: Result<usize, WriteError>,
}

/// The failover decision over the outcomes of trying the planned nodes in
/// order: success at the first successful attempt, with no attempt beyond
/// it; after all attempts failed, the error keeps the last failure's
/// detail.
pub fn run_failover(outcomes: &Vec<AttemptOutcome>) -> (r: FailoverReport)
    ensures
        ({
            let o = outcomes@;
            let f = first_success(o);
            &&& (f < o.len() ==> r.attempts == f + 1 && (r.result matches Ok(k) && k == f))
            &&& (f >= o.len() ==> r.attempts == o.len() && (match r.result {
                Ok(_) => false,
                Err(WriteError::AllNodesFailed { last_error }) => {
                    if o.len() == 0 {
                        last_error is None
                    } else {
                        match (last_error, o[o.len() - 1]) {
                            (Some(m), AttemptOutcome::Failure(fm)) => m@ == fm@,
                            _ => false,
                        }
                    }
                },
            }))
        }),
{
    proof {
        lemma_first_success(outcomes@);
    }
    let n: usize = outcomes.len();
    let mut last_error: Option<String> = None;
    let mut i: usize = 0;
    while i < n
        invariant
            0 <= i <= n,
            n == outcomes@.len(),
            forall|j: int| 0 <= j < i ==> !((#[trigger] outcomes@[j]) is Success),
            i == 0 ==> last_error is None,
            i > 0 ==> (match (last_error, outcomes@[i - 1]) {
                (Some(m), AttemptOutcome::Failure(fm)) => m@ == fm@,
                _ => false,
            }),
        decreases n - i,
    {
        match &outcomes[i] {
            AttemptOutcome::Success => {
                proof {
                    lemma_first_success(outcomes@);
                    assert(first_success(outcomes@) == i) by {
                        if first_success(outcomes@) < i {
                            assert(outcomes@[first_success(outcomes@)] is Success);
                        }
                    }
                }
                return FailoverReport { attempts: i + 1, result: Ok(i) };
            },
            AttemptOutcome::Failure(m) => {
                last_error = Some(m.clone());
            },
        }
        i = i + 1;
    }
    proof {
        lemma_first_success(outcomes@);
        assert(first_success(outcomes@) >= n) by {
            if first_success(outcomes@) < n {
                assert(outcomes@[first_success(outcomes@)] is Success);
            }
        }
    }
    FailoverReport { attempts: n, result: Err(WriteError::AllNodesFailed { last_error }) }
}

/// The per-call failover state: which attempt comes next, whether one
/// succeeded, and the last failure seen. Nothing of it outlives the call.
pub struct Failover {
    pub total: usize,
    pub tried: usize,
    pub succeeded_at: Option<usize>,
    pub last_error: Option<String>,
}

impl Failover {
    pub open spec fn wf(&self) -> bool {
        &&& self.tried <= self.total
        &&& (self.succeeded_at matches Some(k) ==> k < self.tried)
    }

    /// Another node is still to be tried.
    pub open spec fn running(&self) -> bool {
        self.succeeded_at is None && self.tried < self.total
    }

    /// A fresh call: no attempt made, nothing succeeded or failed yet.
    pub fn new(total: usize) -> (r: Self)
        ensures
            r.total == total,
            r.tried == 0,
            r.succeeded_at is None,
            r.last_error is None,
            r.wf(),
    {
        Failover { total, tried: 0, succeeded_at: None, last_error: None }
    }

    /// The position of the next attempt, or None once one node took the
    /// write or every node was tried.
    pub fn next_attempt(&self) -> (r: Option<usize>)
        ensures
            r == (if self.running() {
                Some(self.tried)
            } else {
                None::<usize>
            }),
    {
        if self.succeeded_at.is_none() && self.tried < self.total {
            Some(self.tried)
        } else {
            None
        }
    }

    /// The current attempt's node took the write: the call ends here.
    pub fn on_success(&mut self)
        requires
            old(self).wf(),
            old(self).running(),
        ensures
            final(self).total == old(self).total,
            final(self).tried == old(self).tried + 1,
            final(self).succeeded_at == Some(old(self).tried),
            final(self).last_error == old(self).last_error,
            final(self).wf(),
            !final(self).running(),
    {
        self.succeeded_at = Some(self.tried);
        self.tried = self.tried + 1;
    }

    /// The current attempt's node failed or answered with a non-success
    /// status: the error is recorded and the next node is up.
    pub fn on_failure(&mut self, error: String)
        requires
            old(self).wf(),
            old(self).running(),
        ensures
            final(self).total == old(self).total,
            final(self).tried == old(self).tried + 1,
            final(self).succeeded_at is None,
            final(self).last_error == Some(error),
            final(self).wf(),
    {
        self.last_error = Some(error);
        self.tried = self.tried + 1;
    }

    /// The call's result once no attempt is left: success if some node took
    /// the write, else the failure that keeps the last error's detail.
    pub fn into_result(self) -> (r: Result<usize, WriteError>)
        requires
            self.wf(),
            !self.running(),
        ensures
            (match self.succeeded_at {
                Some(k) => r matches Ok(kk) && kk == k,
                None => r matches Err(WriteError::AllNodesFailed { last_error }) && last_error
                    == self.last_error,
            }),
    {
        match self.succeeded_at {
            Some(k) => Ok(k),
            None => Err(WriteError::AllNodesFailed { last_error: self.last_error }),
        }
    }
}

/// With at least one healthy node anywhere in the cluster, the write
/// succeeds whatever order the shuffle chose, after at most one attempt
/// per node.
pub proof fn lemma_failover_finds_healthy(order: Seq<usize>, health: Seq<bool>, outcomes: Seq<
    AttemptOutcome,
>)
    requires
        order.len() == health.len(),
        outcomes.len() == order.len(),
        health.len() <= usize::MAX,
        forall|j: int| 0 <= j < order.len() ==> (#[trigger] order[j]) < health.len(),
        forall|k: int| 0 <= k < health.len() ==> order.contains(#[trigger] (k as usize)),
        forall|j: int|
            0 <= j < outcomes.len() ==> ((#[trigger] outcomes[j]) is Success <==> health[order[j] as int]),
        exists|k: int| 0 <= k < health.len() && health[k],
    ensures
        first_success(outcomes) < outcomes.len(),
        first_success(outcomes) + 1 <= order.len(),
{
    let k = choose|k: int| 0 <= k < health.len() && health[k];
    assert(order.contains(k as usize));
    let j = choose|j: int| 0 <= j < order.len() && order[j] == k as usize;
    assert(order[j] as int == k);
    assert(outcomes[j] is Success);
    lemma_first_success(outcomes);
    if first_success(outcomes) >= outcomes.len() {
        assert(!(outcomes[j] is Success));
    }
}

/// With every node failing, the failover tries each planned node exactly
/// once and ends with the all-nodes-failed error.
pub proof fn lemma_failover_all_fail(outcomes: Seq<AttemptOutcome>)
    requires
        forall|j: int| 0 <= j < outcomes.len() ==> !((#[trigger] outcomes[j]) is Success),
    ensures
        first_success(outcomes) >= outcomes.len(),
{
    lemma_first_success(outcomes);
    if first_success(outcomes) < outcomes.len() {
        assert(outcomes[first_success(outcomes)] is Success);
    }
}

} // verus!
