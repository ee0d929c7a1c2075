//! Startup configuration: resolving the operator's options into one
//! explicit value, and planning listeners and reverse authorities from
//! the node's listening addresses — all before any socket is bound.

use vstd::prelude::*;
use crate::ip::{cidr_of_text, parse_cidr, Cidr, Ip};

verus! {

/// A configuration fault that stops startup before any socket binds.
#[derive(Clone, Copy, PartialEq, Eq, Structural, Debug)]
pub enum ConfigError {
    MissingNetwork,
    MissingToken,
    InvalidDomain,
    NoListenAddrs,
    InvalidListenAddr,
    NoIpv4,
}

/// The default zone domain, "home.arpa", as labels.
pub open spec fn default_domain() -> Seq<Seq<u8>> {
    seq![seq![104u8, 111, 109, 101], seq![97u8, 114, 112, 97]]
}

pub fn default_domain_labels() -> (r: Vec<Vec<u8>>)
    ensures
        r.deep_view() == default_domain(),
{
    let mut r: Vec<Vec<u8>> = Vec::new();
    r.push(vec![104u8, 111, 109, 101]);
    r.push(vec![97u8, 114, 112, 97]);
    proof {
        assert(r.deep_view()[0] == r@[0]@);
        assert(r.deep_view()[1] == r@[1]@);
        assert(r.deep_view() =~~= default_domain());
    }
    r
}

/// The index of the first dot, or the length when there is none.
pub open spec fn first_dot(s: Seq<u8>) -> nat
    decreases s.len(),
{
    if s.len() == 0 {
        0
    } else if s[0] == 46 {
        0
    } else {
        1 + first_dot(s.drop_first())
    }
}

proof fn lemma_first_dot(s: Seq<u8>)
    ensures
        0 <= first_dot(s) <= s.len(),
        first_dot(s) < s.len() ==> s[first_dot(s) as int] == 46,
        forall|j: int| 0 <= j < first_dot(s) ==> s[j] != 46,
    decreases s.len(),
{
    if s.len() > 0 && s[0] != 46 {
        lemma_first_dot(s.drop_first());
        assert forall|j: int| 0 <= j < first_dot(s) implies s[j] != 46 by {
            if j > 0 {
                assert(s.drop_first()[j - 1] == s[j]);
            }
            assert(s[j] != 46);
        }
    }
}

/// Domain text split into labels at the dots.
pub open spec fn split_labels(s: Seq<u8>) -> Seq<Seq<u8>>
    decreases s.len(),
{
    let i = first_dot(s);
    if i >= s.len() {
        seq![s]
    } else {
        seq![s.take(i as int)] + split_labels(s.skip(i + 1 as int))
    }
}

/// A usable domain: one to sixty-four labels, each one to sixty-three
/// bytes long.
pub open spec fn domain_ok(ls: Seq<Seq<u8>>) -> bool {
    1 <= ls.len() <= 64 && forall|i: int|
        0 <= i < ls.len() ==> 1 <= (#[trigger] ls[i]).len() <= 63
}

/// The index of the first dot at or after `start`.
fn find_dot(s: &Vec<u8>, start: usize) -> (r: usize)
    requires
        start <= s@.len(),
    ensures
        start <= r <= s@.len(),
        r - start == first_dot(s@.skip(start as int)),
{
    let mut i: usize = start;
    while i < s.len()
        invariant
            start <= i <= s@.len(),
            forall|j: int| start <= j < i ==> s@[j] != 46,
        decreases s.len() - i,
    {
        if s[i] == 46 {
            proof {
                lemma_first_dot(s@.skip(start as int));
                let fd = first_dot(s@.skip(start as int));
                assert(s@.skip(start as int)[i - start] == 46);
                if fd < i - start {
                    assert(s@[start + fd] == s@.skip(start as int)[fd as int]);
                }
                if fd > i - start {
                    assert(s@.skip(start as int)[i - start] != 46);
                }
            }
            return i;
        }
        i = i + 1;
    }
    proof {
        lemma_first_dot(s@.skip(start as int));
        let fd = first_dot(s@.skip(start as int));
        if fd < s@.len() - start {
            assert(s@[start + fd] == s@.skip(start as int)[fd as int]);
        }
    }
    s.len()
}

/// Splits domain text into its labels, from `start` on.
fn split_from(s: &Vec<u8>, start: usize) -> (r: Vec<Vec<u8>>)
    requires
        start <= s@.len(),
    ensures
        r.deep_view() == split_labels(s@.skip(start as int)),
    decreases s@.len() - start,
{
    let e = find_dot(s, start);
    let ghost tail = s@.skip(start as int);
    let label = crate::wire::copy_range(s, start, e);
    proof {
        assert(label@ =~= tail.take(first_dot(tail) as int));
    }
    if e == s.len() {
        proof {
            assert(first_dot(tail) >= tail.len());
            lemma_first_dot(tail);
            assert(label@ =~= tail);
        }
        let mut r: Vec<Vec<u8>> = Vec::new();
        r.push(label);
        proof {
            assert(r.deep_view()[0] == r@[0]@);
            assert(r.deep_view() =~= split_labels(tail));
        }
        r
    } else {
        let rest = split_from(s, e + 1);
        proof {
            assert(s@.skip(e + 1 as int) =~= tail.skip(first_dot(tail) + 1 as int));
        }
        let mut r: Vec<Vec<u8>> = Vec::new();
        r.push(label);
        let mut i: usize = 0;
        while i < rest.len()
            invariant
                i <= rest@.len(),
                rest@.len() == rest.deep_view().len(),
                r@.len() == i + 1,
                r@[0]@ == tail.take(first_dot(tail) as int),
                forall|j: int| 0 <= j < i ==> r@[j + 1]@ == rest.deep_view()[j],
            decreases rest.len() - i,
        {
            r.push(crate::record::copy_bytes(&rest[i]));
            i = i + 1;
            proof {
                assert(rest.deep_view()[i - 1] == rest@[i - 1]@);
            }
        }
        proof {
            let want = seq![tail.take(first_dot(tail) as int)] + rest.deep_view();
            assert forall|j: int| 0 <= j < r@.len() implies r.deep_view()[j] == want[j] by {
                assert(r.deep_view()[j] == r@[j]@);
            }
            assert(r.deep_view() =~= want);
            assert(r.deep_view() =~= split_labels(tail));
        }
        r
    }
}

/// Parses domain text into labels, refusing empty or oversized labels.
pub fn parse_domain(s: &Vec<u8>) -> (r: Option<Vec<Vec<u8>>>)
    ensures
        r is Some <==> domain_ok(split_labels(s@)),
        r matches Some(d) ==> d.deep_view() == split_labels(s@) && crate::record::name_wf(
            d.deep_view(),
        ) && d.deep_view().len() <= 64,
{
    let ls = split_from(s, 0);
    proof {
        assert(s@.skip(0) =~= s@);
    }
    if ls.len() == 0 || ls.len() > 64 {
        proof {
            assert(!domain_ok(split_labels(s@)));
        }
        return None;
    }
    let mut i: usize = 0;
    while i < ls.len()
        invariant
            i <= ls@.len(),
            ls@.len() == ls.deep_view().len(),
            ls.deep_view() == split_labels(s@),
            1 <= ls@.len() <= 64,
            forall|j: int| 0 <= j < i ==> 1 <= (#[trigger] ls.deep_view()[j]).len() <= 63,
        decreases ls.len() - i,
    {
        let n = ls[i].len();
        proof {
            assert(ls.deep_view()[i as int] == ls@[i as int]@);
        }
        if n == 0 || n > 63 {
            proof {
                assert(!domain_ok(split_labels(s@)));
            }
            return None;
        }
        i = i + 1;
    }
    proof {
        assert(domain_ok(split_labels(s@)));
    }
    Some(ls)
}

/// Everything the supervision commands resolve: the explicit, validated
/// form of the operator's options.
pub struct Properties {
    pub domain: Vec<Vec<u8>>,
    pub network: Vec<u8>,
    pub hosts_file: Option<Vec<u8>>,
    pub authtoken_path: Option<Vec<u8>>,
    pub token_path: Option<Vec<u8>>,
}

/// The domain labels an optional domain text resolves to, when it does.
pub open spec fn resolved_domain(domain: Option<Vec<u8>>) -> Seq<Seq<u8>> {
    match domain {
        Some(d) => split_labels(d@),
        None => default_domain(),
    }
}

/// Resolves and validates the options for supervised operation: the
/// network and the token file path are required, the domain must parse
/// when given. No file is touched here; installing the supervisor is the
/// caller's affair.
pub fn supervise(
    domain: Option<Vec<u8>>,
    network: Option<Vec<u8>>,
    hosts_file: Option<Vec<u8>>,
    authtoken: Option<Vec<u8>>,
    token: Option<Vec<u8>>,
) -> (r: Result<Properties, ConfigError>)
    ensures
        r is Ok <==> (network matches Some(n) && n@.len() > 0) && (token matches Some(t)
            && t@.len() > 0) && domain_ok(resolved_domain(domain)),
        !(network matches Some(n) && n@.len() > 0) ==> r == Result::<
            Properties,
            ConfigError,
        >::Err(ConfigError::MissingNetwork),
        (network matches Some(n) && n@.len() > 0) && !(token matches Some(t) && t@.len() > 0)
            ==> r == Result::<Properties, ConfigError>::Err(ConfigError::MissingToken),
        (network matches Some(n) && n@.len() > 0) && (token matches Some(t) && t@.len() > 0)
            && !domain_ok(resolved_domain(domain)) ==> r == Result::<
            Properties,
            ConfigError,
        >::Err(ConfigError::InvalidDomain),
        r matches Ok(p) ==> {
            &&& p.domain.deep_view() == resolved_domain(domain)
            &&& crate::record::name_wf(p.domain.deep_view())
            &&& p.domain.deep_view().len() <= 64
            &&& network matches Some(n) && p.network@ == n@
            &&& (match (hosts_file, &p.hosts_file) {
                (Some(h), Some(ph)) => ph@ == h@,
                (None, None) => true,
                _ => false,
            })
            &&& (match (authtoken, &p.authtoken_path) {
                (Some(a), Some(pa)) => pa@ == a@,
                (None, None) => true,
                _ => false,
            })
            &&& (match (token, &p.token_path) {
                (Some(t), Some(pt)) => pt@ == t@,
                (None, None) => true,
                _ => false,
            })
        },
{
    let network = match network {
        Some(n) => {
            if n.len() == 0 {
                return Err(ConfigError::MissingNetwork);
            }
            n
        },
        None => {
            return Err(ConfigError::MissingNetwork);
        },
    };
    let token = match token {
        Some(t) => {
            if t.len() == 0 {
                return Err(ConfigError::MissingToken);
            }
            t
        },
        None => {
            return Err(ConfigError::MissingToken);
        },
    };
    let dom: Vec<Vec<u8>> = match &domain {
        Some(d) => {
            match parse_domain(d) {
                Some(ls) => ls,
                None => {
                    return Err(ConfigError::InvalidDomain);
                },
            }
        },
        None => default_domain_labels(),
    };
    proof {
        if domain is None {
            assert(domain_ok(default_domain())) by {
                assert(default_domain()[0].len() == 4);
                assert(default_domain()[1].len() == 4);
            }
            assert(crate::record::name_wf(default_domain()));
        }
    }
    Ok(
        Properties {
            domain: dom,
            network,
            hosts_file,
            authtoken_path: authtoken,
            token_path: Some(token),
        },
    )
}

/// Resolves the options for removing supervision: only the network is
/// required.
pub fn unsupervise(network: Option<Vec<u8>>) -> (r: Result<Properties, ConfigError>)
    ensures
        r is Ok <==> (network matches Some(n) && n@.len() > 0),
        r is Err ==> r == Result::<Properties, ConfigError>::Err(ConfigError::MissingNetwork),
        r matches Ok(p) ==> {
            &&& network matches Some(n) && p.network@ == n@
            &&& p.domain.deep_view() == default_domain()
            &&& p.hosts_file is None
            &&& p.authtoken_path is None
            &&& p.token_path is None
        },
{
    match network {
        Some(n) => {
            if n.len() == 0 {
                return Err(ConfigError::MissingNetwork);
            }
            Ok(
                Properties {
                    domain: default_domain_labels(),
                    network: n,
                    hosts_file: None,
                    authtoken_path: None,
                    token_path: None,
                },
            )
        },
        None => Err(ConfigError::MissingNetwork),
    }
}

/// One socket to bind: the listening address and its subnet key.
#[derive(Clone, Copy, PartialEq, Eq, Structural, Debug)]
pub struct Listener {
    pub ip: Ip,
    pub subnet: Cidr,
}

/// The addresses the parser accepts among the discovered texts.
pub open spec fn parsed_cidrs(ss: Seq<Seq<char>>) -> Seq<Cidr> {
    ss.filter_map(|s: Seq<char>| cidr_of_text(s))
}

/// The distinct subnet keys, in order of first appearance.
pub open spec fn dedup_subnets(cs: Seq<Cidr>) -> Seq<Cidr>
    decreases cs.len(),
{
    if cs.len() == 0 {
        Seq::empty()
    } else {
        let front = dedup_subnets(cs.drop_last());
        if front.contains(cs.last().subnet_spec()) {
            front
        } else {
            front.push(cs.last().subnet_spec())
        }
    }
}

/// The first v4 address among the parsed prefixes.
pub open spec fn spec_first_v4(cs: Seq<Cidr>) -> Ip
    decreases cs.len(),
{
    if cs.len() == 0 {
        Ip::V4(0)
    } else if cs[0].ip.is_v4() {
        cs[0].ip
    } else {
        spec_first_v4(cs.drop_first())
    }
}

proof fn lemma_first_v4_at(cs: Seq<Cidr>, i: int)
    requires
        0 <= i < cs.len(),
        cs[i].ip.is_v4(),
        forall|j: int| 0 <= j < i ==> !(#[trigger] cs[j]).ip.is_v4(),
    ensures
        spec_first_v4(cs) == cs[i].ip,
    decreases i,
{
    if i > 0 {
        assert(!cs[0].ip.is_v4());
        assert(cs.drop_first()[i - 1] == cs[i]);
        assert forall|j: int| 0 <= j < i - 1 implies !(#[trigger] cs.drop_first()[j]).ip.is_v4() by {
            assert(cs.drop_first()[j] == cs[j + 1]);
        }
        lemma_first_v4_at(cs.drop_first(), i - 1);
    }
}

/// The plan the daemon starts from: each listening address with its
/// subnet key, the distinct subnets in discovery order, and the first
/// v4 address, which names this node in the membership service.
pub struct ListenPlan {
    pub listeners: Vec<Listener>,
    pub subnets: Vec<Cidr>,
    pub first_v4: Ip,
}

fn contains_cidr(v: &Vec<Cidr>, c: &Cidr) -> (r: bool)
    ensures
        r == v@.contains(*c),
{
    let mut i: usize = 0;
    while i < v.len()
        invariant
            i <= v@.len(),
            forall|j: int| 0 <= j < i ==> v@[j] != *c,
        decreases v.len() - i,
    {
        if v[i] == *c {
            return true;
        }
        i = i + 1;
    }
    proof {
        if v@.contains(*c) {
            let j = choose|j: int| 0 <= j < v@.len() && v@[j] == *c;
            assert(false);
        }
    }
    false
}

/// Plans the listeners and reverse authorities from the discovered
/// listening-address texts. An empty discovery, an unparsable address,
/// or a discovery without any v4 address each stop startup.
pub fn plan_listeners(cidrs: &Vec<String>) -> (r: Result<ListenPlan, ConfigError>)
    ensures
        cidrs@.len() == 0 ==> r == Result::<ListenPlan, ConfigError>::Err(
            ConfigError::NoListenAddrs,
        ),
        r is Ok <==> cidrs@.len() > 0 && (forall|i: int|
            0 <= i < cidrs.deep_view().len() ==> cidr_of_text(
                #[trigger] cidrs.deep_view()[i],
            ) is Some) && (exists|i: int|
            0 <= i < parsed_cidrs(cidrs.deep_view()).len() && (#[trigger] parsed_cidrs(
                cidrs.deep_view(),
            )[i]).ip.is_v4()),
        r matches Ok(plan) ==> {
            let parsed = parsed_cidrs(cidrs.deep_view());
            &&& plan.listeners@.len() == parsed.len()
            &&& forall|i: int|
                0 <= i < parsed.len() ==> (#[trigger] plan.listeners@[i]).ip == parsed[i].ip
                    && plan.listeners@[i].subnet == parsed[i].subnet_spec()
            &&& plan.subnets@ == dedup_subnets(parsed)
            &&& forall|i: int| 0 <= i < plan.subnets@.len() ==> (#[trigger] plan.subnets@[i]).wf()
            &&& plan.first_v4 == spec_first_v4(parsed)
            &&& plan.first_v4.is_v4()
        },
{
    let ghost dv = cidrs.deep_view();
    if cidrs.len() == 0 {
        return Err(ConfigError::NoListenAddrs);
    }
    let ghost f = |s: Seq<char>| cidr_of_text(s);
    let mut parsed: Vec<Cidr> = Vec::new();
    let mut i: usize = 0;
    proof {
        assert(parsed@ =~= dv.take(0).filter_map(f));
    }
    while i < cidrs.len()
        invariant
            i <= cidrs@.len(),
            cidrs@.len() == dv.len(),
            dv == cidrs.deep_view(),
            parsed@ == dv.take(i as int).filter_map(f),
            f == (|s: Seq<char>| cidr_of_text(s)),
            parsed@.len() == i,
            forall|j: int| 0 <= j < i ==> cidr_of_text(#[trigger] dv[j]) is Some,
            forall|j: int| 0 <= j < parsed@.len() ==> (#[trigger] parsed@[j]).wf(),
        decreases cidrs.len() - i,
    {
        proof {
            assert(dv[i as int] == cidrs@[i as int]@);
        }
        match parse_cidr(cidrs[i].as_str()) {
            Some(c) => {
                parsed.push(c);
            },
            None => {
                return Err(ConfigError::InvalidListenAddr);
            },
        }
        i = i + 1;
        proof {
            assert(dv.take(i as int).drop_last() =~= dv.take(i - 1));
            assert(dv.take(i as int).last() == dv[i - 1]);
            match f(dv[i - 1]) {
                Some(c) => {
                    assert(dv.take(i as int).filter_map(f) == dv.take(i - 1).filter_map(f)
                        + seq![c]);
                    assert(parsed@ =~= dv.take(i - 1).filter_map(f) + seq![c]);
                },
                None => {},
            }
        }
    }
    proof {
        assert(dv.take(dv.len() as int) =~= dv);
    }
    let mut v4_at: Option<usize> = None;
    let mut k: usize = 0;
    while k < parsed.len()
        invariant_except_break
            v4_at is None,
        invariant
            k <= parsed@.len(),
            forall|j: int| 0 <= j < k ==> !(#[trigger] parsed@[j]).ip.is_v4(),
        ensures
            match v4_at {
                Some(at) => at < parsed@.len() && parsed@[at as int].ip.is_v4() && forall|j: int|
                    0 <= j < at ==> !(#[trigger] parsed@[j]).ip.is_v4(),
                None => forall|j: int|
                    0 <= j < parsed@.len() ==> !(#[trigger] parsed@[j]).ip.is_v4(),
            },
        decreases parsed.len() - k,
    {
        if parsed[k].ip.version_is_v4() {
            v4_at = Some(k);
            break;
        }
        k = k + 1;
    }
    let at = match v4_at {
        Some(at) => at,
        None => {
            return Err(ConfigError::NoIpv4);
        },
    };
    let first4 = parsed[at].ip;
    proof {
        lemma_first_v4_at(parsed@, at as int);
    }
    let mut listeners: Vec<Listener> = Vec::new();
    let mut subnets: Vec<Cidr> = Vec::new();
    let mut m: usize = 0;
    proof {
        assert(subnets@ =~= dedup_subnets(parsed@.take(0)));
    }
    while m < parsed.len()
        invariant
            m <= parsed@.len(),
            listeners@.len() == m,
            forall|j: int|
                0 <= j < m ==> (#[trigger] listeners@[j]).ip == parsed@[j].ip && listeners@[
                j].subnet == parsed@[j].subnet_spec(),
            subnets@ == dedup_subnets(parsed@.take(m as int)),
            forall|j: int| 0 <= j < parsed@.len() ==> (#[trigger] parsed@[j]).wf(),
            forall|j: int| 0 <= j < subnets@.len() ==> (#[trigger] subnets@[j]).wf(),
        decreases parsed.len() - m,
    {
        let c = parsed[m];
        let key = c.subnet();
        listeners.push(Listener { ip: c.ip, subnet: key });
        proof {
            assert(key.wf());
        }
        if !contains_cidr(&subnets, &key) {
            subnets.push(key);
        }
        m = m + 1;
        proof {
            assert(parsed@.take(m as int).drop_last() =~= parsed@.take(m - 1));
            assert(parsed@.take(m as int).last() == parsed@[m - 1]);
        }
    }
    proof {
        assert(parsed@.take(parsed@.len() as int) =~= parsed@);
    }
    Ok(ListenPlan { listeners, subnets, first_v4: first4 })
}

} // verus!
