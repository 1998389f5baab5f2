use vstd::prelude::*;
use crate::decimal::dec_of;
use crate::decimal::push_dec;

verus! {

/// Compares two string slices character by character.
pub fn str_eq(a: &str, b: &str) -> (r: bool)
    ensures
        r == (a@ == b@),
{
    let alen = a.unicode_len();
    let blen = b.unicode_len();
    if alen != blen {
        return false;
    }
    let mut i: usize = 0;
    while i < alen
        invariant
            i <= alen,
            alen == a@.len(),
            blen == b@.len(),
            alen == blen,
            forall|j: int| 0 <= j < i ==> a@[j] == b@[j],
        decreases alen - i,
    {
        if a.get_char(i) != b.get_char(i) {
            return false;
        }
        i = i + 1;
    }
    proof {
        assert(a@ =~= b@);
    }
    true
}

/// What the redirect policy does with one hop of a redirect chain.
#[derive(PartialEq, Eq, Structural, Clone, Copy, Debug)]
pub enum RedirectDecision {
    /// Follow the redirect to the next URL.
    Follow,
    /// Stop following and return the response at this hop; not a failure.
    Stop,
    /// Abort with a redirect-limit failure.
    Fail,
}

/// How following a whole redirect chain ends.
#[derive(PartialEq, Eq, Structural, Clone, Copy, Debug)]
pub enum ChainOutcome {
    /// Every hop was followed to the final URL.
    Followed,
    /// The policy stopped at the hop with this index and kept its response.
    Stopped(usize),
    /// The chain exceeded the redirect cap: a redirect-limit failure.
    TooManyRedirects,
}

/// Fixed fetch policy settings, passed explicitly rather than hidden
/// as scattered constants.
pub struct FetchConfig {
    /// Redirects are aborted once the number of previously visited URLs
    /// exceeds this cap.
    pub redirect_cap: usize,
    /// A redirect to this host is not followed: the response at that hop
    /// is returned as-is.
    pub blocked_host: String,
    /// The client identity header sent with each request.
    pub user_agent: String,
}

impl FetchConfig {
    /// The standard configuration: a cap of 100 visited URLs, the fixed
    /// blocked host, and a common desktop browser identity.
    pub fn standard() -> (r: FetchConfig)
        ensures
            r.redirect_cap == 100,
            r.blocked_host@ == "example.domain"@,
            r.user_agent@ == "Mozilla/5.0 (Windows NT 10.0; Win64; x64) AppleWebKit/537.36 (KHTML, like Gecko) Chrome/58.0.3029.110 Safari/537.3"@,
    {
        FetchConfig {
            redirect_cap: 100,
            blocked_host: String::from_str("example.domain"),
            user_agent: String::from_str("Mozilla/5.0 (Windows NT 10.0; Win64; x64) AppleWebKit/537.36 (KHTML, like Gecko) Chrome/58.0.3029.110 Safari/537.3"),
        }
    }
}

/// The host of a hop, as a sequence of characters, if the URL has one.
pub open spec fn host_view(h: Option<&str>) -> Option<Seq<char>> {
    match h {
        Some(s) => Some(s@),
        None => None,
    }
}

/// The policy decision for one hop: fail once more than `cap` URLs have
/// been visited, stop on the blocked host, otherwise follow.
pub open spec fn decision_of(
    cap: nat,
    blocked: Seq<char>,
    previous_count: nat,
    next_host: Option<Seq<char>>,
) -> RedirectDecision {
    if previous_count > cap {
        RedirectDecision::Fail
    } else if next_host == Some(blocked) {
        RedirectDecision::Stop
    } else {
        RedirectDecision::Follow
    }
}

/// Decides what to do with one redirect hop. `previous_count` is the
/// number of URLs visited before this hop; `next_host` is the host the
/// hop redirects to, if its URL has one.
pub fn decide_redirect(cfg: &FetchConfig, previous_count: usize, next_host: Option<&str>) -> (r:
    RedirectDecision)
    ensures
        r == decision_of(
            cfg.redirect_cap as nat,
            cfg.blocked_host@,
            previous_count as nat,
            host_view(next_host),
        ),
{
    if previous_count > cfg.redirect_cap {
        RedirectDecision::Fail
    } else {
        match next_host {
            Some(h) => {
                if str_eq(h, cfg.blocked_host.as_str()) {
                    RedirectDecision::Stop
                } else {
                    RedirectDecision::Follow
                }
            },
            None => RedirectDecision::Follow,
        }
    }
}

/// The outcome of the chain whose hops from index `i` on are still to be
/// decided. At hop `i`, `i + 1` URLs have been visited: the original URL
/// and the targets of the `i` hops already followed.
pub open spec fn chain_outcome_from(
    cap: nat,
    blocked: Seq<char>,
    hosts: Seq<Seq<char>>,
    i: int,
) -> ChainOutcome
    decreases hosts.len() - i,
{
    if i < 0 || i >= hosts.len() {
        ChainOutcome::Followed
    } else {
        match decision_of(cap, blocked, (i + 1) as nat, Some(hosts[i])) {
            RedirectDecision::Fail => ChainOutcome::TooManyRedirects,
            RedirectDecision::Stop => ChainOutcome::Stopped(i as usize),
            RedirectDecision::Follow => chain_outcome_from(cap, blocked, hosts, i + 1),
        }
    }
}

/// The outcome of following a whole redirect chain, hop by hop, under the
/// policy of `decision_of`.
pub open spec fn chain_outcome(cap: nat, blocked: Seq<char>, hosts: Seq<Seq<char>>) -> ChainOutcome {
    chain_outcome_from(cap, blocked, hosts, 0)
}

/// Follows a simulated redirect chain under the configured policy.
/// `hosts[i]` is the host that hop `i` redirects to.
pub fn follow_chain(cfg: &FetchConfig, hosts: &Vec<String>) -> (r: ChainOutcome)
    ensures
        r == chain_outcome(cfg.redirect_cap as nat, cfg.blocked_host@, hosts.deep_view()),
{
    let ghost cap = cfg.redirect_cap as nat;
    let ghost blocked = cfg.blocked_host@;
    let ghost hs = hosts.deep_view();
    let mut i: usize = 0;
    while i < hosts.len()
        invariant
            i <= hosts.len(),
            hs == hosts.deep_view(),
            hs.len() == hosts.len(),
            cap == cfg.redirect_cap as nat,
            blocked == cfg.blocked_host@,
            chain_outcome(cap, blocked, hs) == chain_outcome_from(cap, blocked, hs, i as int),
        decreases hosts.len() - i,
    {
        proof {
            assert(hs[i as int] == hosts[i as int]@);
        }
        let d = decide_redirect(cfg, i + 1, Some(hosts[i].as_str()));
        match d {
            RedirectDecision::Fail => {
                return ChainOutcome::TooManyRedirects;
            },
            RedirectDecision::Stop => {
                return ChainOutcome::Stopped(i);
            },
            RedirectDecision::Follow => {},
        }
        i = i + 1;
    }
    ChainOutcome::Followed
}

/// Law: a chain of no more than `cap` hops with no blocked host is fully
/// followed.
pub proof fn lemma_chain_followed(cap: nat, blocked: Seq<char>, hosts: Seq<Seq<char>>)
    requires
        hosts.len() <= cap,
        forall|k: int| 0 <= k < hosts.len() ==> hosts[k] != blocked,
    ensures
        chain_outcome(cap, blocked, hosts) == ChainOutcome::Followed,
{
    lemma_chain_follows_to(cap, blocked, hosts, 0, hosts.len() as int);
}

/// Law: a chain that reaches more than `cap` visited URLs before any
/// blocked host fails with the redirect-limit outcome.
pub proof fn lemma_chain_too_many(cap: nat, blocked: Seq<char>, hosts: Seq<Seq<char>>)
    requires
        hosts.len() > cap,
        forall|k: int| 0 <= k < cap ==> hosts[k] != blocked,
    ensures
        chain_outcome(cap, blocked, hosts) == ChainOutcome::TooManyRedirects,
{
    lemma_chain_follows_to(cap, blocked, hosts, 0, cap as int);
}

/// Law: a chain whose first blocked hop comes while the cap still allows
/// it stops at exactly that hop, without a failure.
pub proof fn lemma_chain_stops_at_blocked(
    cap: nat,
    blocked: Seq<char>,
    hosts: Seq<Seq<char>>,
    j: int,
)
    requires
        0 <= j < hosts.len(),
        hosts.len() <= usize::MAX,
        j < cap,
        hosts[j] == blocked,
        forall|k: int| 0 <= k < j ==> hosts[k] != blocked,
    ensures
        chain_outcome(cap, blocked, hosts) == ChainOutcome::Stopped(j as usize),
{
    lemma_chain_follows_to(cap, blocked, hosts, 0, j);
}

/// Hops in `[i, j)` that target no blocked host and stay under the cap are
/// all followed, so the outcome from `i` equals the outcome from `j`.
proof fn lemma_chain_follows_to(cap: nat, blocked: Seq<char>, hosts: Seq<Seq<char>>, i: int, j: int)
    requires
        0 <= i <= j <= hosts.len(),
        j <= cap,
        forall|k: int| i <= k < j ==> hosts[k] != blocked,
    ensures
        chain_outcome_from(cap, blocked, hosts, i) == chain_outcome_from(cap, blocked, hosts, j),
    decreases j - i,
{
    if i < j {
        assert(decision_of(cap, blocked, (i + 1) as nat, Some(hosts[i]))
            == RedirectDecision::Follow);
        lemma_chain_follows_to(cap, blocked, hosts, i + 1, j);
    }
}

/// The page URL for a product identifier: the fixed site host with the
/// identifier rendered in decimal.
pub open spec fn url_of(id: nat) -> Seq<char> {
    "https://vi.aliexpress.com/item/"@ + dec_of(id) + ".html"@
}

/// Builds the product page URL for `product_id`.
pub fn get_product_url(product_id: u64) -> (r: String)
    ensures
        r@ == url_of(product_id as nat),
{
    let mut s = String::from_str("https://vi.aliexpress.com/item/");
    push_dec(&mut s, product_id);
    s.append(".html");
    assert(s@ =~= url_of(product_id as nat));
    s
}

} // verus!
