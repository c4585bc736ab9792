use vstd::prelude::*;
use vstd::string::*;
use crate::headscale::HeadscaleNode;
use crate::headscale::HeadscaleUser;
use crate::headscale::magic_dns_name;
use crate::headscale::user_list_contains;
use crate::patterns::regex_match;
use crate::patterns::regex_pattern_valid;
use crate::patterns::regex_try_match;
use crate::patterns::regex_valid;
use crate::rules::extract_domains;
use crate::traefik::TraefikAPIClientDetails;
use crate::traefik::TraefikRouter;
use crate::traefik::TraefikUserError;
use crate::traefik::same_route_key;
use crate::traefik::route_key_eq;

verus! {

/// Record type of a synthesized DNS entry: `A` for IPv4 addresses,
/// `AAAA` for IPv6 addresses (those containing a colon).
#[derive(Clone, Copy, PartialEq, Eq, Structural, Debug)]
pub enum RecordType {
    A,
    AAAA,
}

impl RecordType {
    /// The wire name of the record type: `A` or `AAAA`.
    pub fn as_str(&self) -> (r: &'static str)
        ensures
            r@ == (match self {
                RecordType::A => seq!['A'],
                RecordType::AAAA => seq!['A', 'A', 'A', 'A'],
            }),
    {
        proof {
            reveal_strlit("A");
            reveal_strlit("AAAA");
            assert("A"@ =~= seq!['A']);
            assert("AAAA"@ =~= seq!['A', 'A', 'A', 'A']);
        }
        match self {
            RecordType::A => "A",
            RecordType::AAAA => "AAAA",
        }
    }
}

/// One DNS entry of the output: a domain name, its record type, and
/// the address it resolves to. Identity for deduplication is the
/// (name, record type) pair alone; the value is not part of the key.
#[derive(Clone, Debug)]
pub struct DnsRecord {
    pub name: String,
    pub record_type: RecordType,
    pub value: String,
}

/// The mathematical content of one DNS entry.
pub struct RecordModel {
    pub name: Seq<char>,
    pub rtype: RecordType,
    pub value: Seq<char>,
}

impl DnsRecord {
    /// The mathematical content of this entry.
    pub open spec fn model(self) -> RecordModel {
        RecordModel { name: self.name@, rtype: self.record_type, value: self.value@ }
    }
}

/// The mathematical content of a list of DNS entries.
pub open spec fn records_model(v: Seq<DnsRecord>) -> Seq<RecordModel> {
    v.map_values(|d: DnsRecord| d.model())
}

/// The record type an address maps to: `AAAA` when the address
/// contains a colon, `A` otherwise.
pub open spec fn addr_record_type(ip: Seq<char>) -> RecordType {
    if ip.contains(':') {
        RecordType::AAAA
    } else {
        RecordType::A
    }
}

/// Decide the record type of one address string.
pub fn record_type_of_address(ip: &str) -> (r: RecordType)
    ensures
        r == addr_record_type(ip@),
{
    let n = ip.unicode_len();
    let mut i: usize = 0;
    while i < n
        invariant
            n == ip@.len(),
            0 <= i <= n,
            forall|j: int| 0 <= j < i ==> ip@[j] != ':',
        decreases n - i,
    {
        if ip.get_char(i) == ':' {
            assert(ip@.contains(':'));
            return RecordType::AAAA;
        }
        i += 1;
    }
    assert(!ip@.contains(':'));
    RecordType::A
}

/// Whether the output set already holds an entry with this
/// (name, record type) key.
pub open spec fn record_key_in(recs: Seq<RecordModel>, name: Seq<char>, rtype: RecordType) -> bool {
    exists|i: int| 0 <= i < recs.len() && recs[i].name == name && recs[i].rtype == rtype
}

/// Whether the entries hold one with the given (name, record type) key.
fn record_key_present(entries: &Vec<DnsRecord>, name: &String, rtype: RecordType) -> (r: bool)
    ensures
        r == record_key_in(records_model(entries@), name@, rtype),
{
    let mut i: usize = 0;
    while i < entries.len()
        invariant
            0 <= i <= entries@.len(),
            forall|j: int|
                0 <= j < i ==> !(entries@[j].name@ == name@ && entries@[j].record_type == rtype),
        decreases entries@.len() - i,
    {
        if entries[i].name == *name && entries[i].record_type == rtype {
            assert(records_model(entries@)[i as int].name == name@);
            return true;
        }
        i += 1;
    }
    assert(forall|j: int|
        0 <= j < records_model(entries@).len() ==> records_model(entries@)[j]
            == entries@[j].model());
    false
}

/// Whether the string list holds an entry equal to `s`.
fn vec_string_contains(v: &Vec<String>, s: &String) -> (r: bool)
    ensures
        r == v.deep_view().contains(s@),
{
    let mut i: usize = 0;
    while i < v.len()
        invariant
            0 <= i <= v@.len(),
            forall|j: int| 0 <= j < i ==> v@[j]@ != s@,
        decreases v@.len() - i,
    {
        if v[i] == *s {
            assert(v.deep_view()[i as int] == s@);
            return true;
        }
        i += 1;
    }
    assert forall|j: int| 0 <= j < v.deep_view().len() implies v.deep_view()[j] != s@ by {
        assert(v.deep_view()[j] == v@[j]@);
    }
    false
}

/// The middleware list of a route, as character sequences, if the
/// route declares one.
pub open spec fn middlewares_view(mws: Option<Vec<String>>) -> Option<Seq<Seq<char>>> {
    match mws {
        Some(v) => Some(v.deep_view()),
        None => None,
    }
}

/// Whether some allowlisted middleware occurs in the route's list.
pub open spec fn middleware_intersects(mws: Seq<Seq<char>>, allow: Seq<Seq<char>>) -> bool {
    exists|j: int| 0 <= j < allow.len() && mws.contains(allow[j])
}

/// The middleware gate of record synthesis: with an empty allowlist
/// every route passes; with a non-empty one a route passes only if it
/// declares a middleware list that intersects the allowlist.
pub open spec fn middleware_gate(allow: Seq<Seq<char>>, mws: Option<Seq<Seq<char>>>) -> bool {
    allow.len() == 0 || (match mws {
        Some(m) => middleware_intersects(m, allow),
        None => false,
    })
}

/// Decide the middleware gate for one route.
pub fn middleware_gate_exec(allow: &Vec<String>, mws: &Option<Vec<String>>) -> (r: bool)
    ensures
        r == middleware_gate(allow.deep_view(), middlewares_view(*mws)),
{
    if allow.len() == 0 {
        return true;
    }
    match mws {
        None => false,
        Some(m) => {
            assert(middlewares_view(*mws) == Some(m.deep_view()));
            let mut j: usize = 0;
            while j < allow.len()
                invariant
                    0 <= j <= allow@.len(),
                    middlewares_view(*mws) == Some(m.deep_view()),
                    forall|j2: int| 0 <= j2 < j ==> !m.deep_view().contains(allow.deep_view()[j2]),
                decreases allow@.len() - j,
            {
                if vec_string_contains(m, &allow[j]) {
                    assert(allow.deep_view()[j as int] == allow@[j as int]@);
                    assert(middleware_intersects(m.deep_view(), allow.deep_view())) by {
                        assert(0 <= j < allow.deep_view().len() && m.deep_view().contains(
                            allow.deep_view()[j as int],
                        ));
                    }
                    return true;
                }
                assert(allow.deep_view()[j as int] == allow@[j as int]@);
                j += 1;
            }
            assert(!middleware_intersects(m.deep_view(), allow.deep_view()));
            false
        },
    }
}

/// The users kept by the allowlist, in order: those whose name the
/// allowlist holds.
pub open spec fn filter_users_rec(users: Seq<HeadscaleUser>, allowed: Seq<Seq<char>>) -> Seq<
    HeadscaleUser,
>
    decreases users.len(),
{
    if users.len() == 0 {
        Seq::empty()
    } else {
        let rest = filter_users_rec(users.drop_first(), allowed);
        if allowed.contains(users[0].name@) {
            seq![users[0]] + rest
        } else {
            rest
        }
    }
}

/// The users kept after user filtering: everybody when the allowlist
/// is empty, else exactly the allowlisted ones, in order.
pub open spec fn filtered_users(users: Seq<HeadscaleUser>, allowed: Seq<Seq<char>>) -> Seq<
    HeadscaleUser,
> {
    if allowed.len() == 0 {
        users
    } else {
        filter_users_rec(users, allowed)
    }
}

/// Keep only the users the (non-empty) allowlist names.
fn filter_users_exec(users: Vec<HeadscaleUser>, allowed: &Vec<String>) -> (r: Vec<HeadscaleUser>)
    ensures
        r@ == filtered_users(users@, allowed.deep_view()),
{
    if allowed.len() == 0 {
        return users;
    }
    let mut out: Vec<HeadscaleUser> = Vec::new();
    let ghost all = users@;
    let ghost allow = allowed.deep_view();
    proof {
        assert(Seq::<HeadscaleUser>::empty() + filter_users_rec(all, allow) =~= filter_users_rec(
            all,
            allow,
        ));
    }
    let mut users = users;
    while users.len() > 0
        invariant
            allow == allowed.deep_view(),
            out@ + filter_users_rec(users@, allow) == filter_users_rec(all, allow),
        decreases users@.len(),
    {
        let ghost before = users@;
        let u = users.remove(0);
        let ghost prev = out@;
        let keep = vec_string_contains(allowed, &u.name);
        if keep {
            out.push(u);
        }
        proof {
            assert(before[0] == u);
            assert(users@ =~= before.drop_first());
            if keep {
                assert(out@ =~= prev + seq![u]);
                assert(prev + (seq![u] + filter_users_rec(users@, allow)) =~= (prev + seq![u])
                    + filter_users_rec(users@, allow));
            }
        }
    }
    proof {
        assert(out@ + Seq::<HeadscaleUser>::empty() =~= out@);
    }
    out
}

/// Whether a node is eligible for Traefik querying: its owner passed
/// the user filter and its name is not blocklisted.
pub open spec fn node_eligible(
    node: HeadscaleNode,
    users: Seq<HeadscaleUser>,
    blacklist: Seq<Seq<char>>,
) -> bool {
    user_list_contains(users, node.user.name@) && !blacklist.contains(node.given_name@)
}

/// The indices of the eligible nodes at or after position `i`, in
/// order.
pub open spec fn eligible_indices_from(
    nodes: Seq<HeadscaleNode>,
    users: Seq<HeadscaleUser>,
    blacklist: Seq<Seq<char>>,
    i: int,
) -> Seq<int>
    decreases nodes.len() - i,
        when 0 <= i <= nodes.len()
{
    if i >= nodes.len() {
        Seq::empty()
    } else {
        let rest = eligible_indices_from(nodes, users, blacklist, i + 1);
        if node_eligible(nodes[i], users, blacklist) {
            seq![i] + rest
        } else {
            rest
        }
    }
}

fn copy_users(users: &Vec<HeadscaleUser>) -> (r: Vec<HeadscaleUser>)
    ensures
        r@ == users@,
{
    let mut r: Vec<HeadscaleUser> = Vec::new();
    let mut i: usize = 0;
    while i < users.len()
        invariant
            0 <= i <= users@.len(),
            r@ == users@.take(i as int),
        decreases users@.len() - i,
    {
        r.push(HeadscaleUser { name: users[i].name.clone() });
        assert(users@[i as int] == (HeadscaleUser { name: users@[i as int].name }));
        assert(r@ =~= users@.take(i + 1));
        i += 1;
    }
    assert(r@ =~= users@);
    r
}

/// Every node that server selection will target — owner retained by
/// the user filter, name not blocklisted — carries at least one
/// address. Nodes the filters drop may have none.
pub open spec fn selectable_nodes_have_addresses(
    nodes: Seq<HeadscaleNode>,
    users: Seq<HeadscaleUser>,
    blacklist: Seq<Seq<char>>,
) -> bool {
    forall|i: int|
        0 <= i < nodes.len() ==> (node_eligible(#[trigger] nodes[i], users, blacklist)
            ==> nodes[i].ip_addresses@.len() > 0)
}

/// Decide, before server selection, whether every node it will
/// target carries an address: exactly the precondition of
/// `Processing::update_servers`, for callers that cannot prove it.
pub fn eligible_nodes_have_addresses(
    users: &Vec<HeadscaleUser>,
    nodes: &Vec<HeadscaleNode>,
    setup: &ProcessingSetup,
) -> (r: bool)
    ensures
        r == selectable_nodes_have_addresses(
            nodes@,
            filtered_users(users@, setup.allowed_users.deep_view()),
            setup.node_blacklist.deep_view(),
        ),
{
    let retained = filter_users_exec(copy_users(users), &setup.allowed_users);
    let ghost usrs = retained@;
    let ghost bl = setup.node_blacklist.deep_view();
    let mut i: usize = 0;
    while i < nodes.len()
        invariant
            usrs == filtered_users(users@, setup.allowed_users.deep_view()),
            usrs == retained@,
            bl == setup.node_blacklist.deep_view(),
            0 <= i <= nodes@.len(),
            forall|j: int|
                0 <= j < i ==> (node_eligible(#[trigger] nodes@[j], usrs, bl)
                    ==> nodes@[j].ip_addresses@.len() > 0),
        decreases nodes@.len() - i,
    {
        let node = &nodes[i];
        let owner_ok = crate::headscale::headscale_user_list_contains_a_user(
            &retained,
            node.user.name.as_str(),
        );
        let blocked = vec_string_contains(&setup.node_blacklist, &node.given_name);
        if owner_ok && !blocked && node.ip_addresses.len() == 0 {
            assert(node_eligible(nodes@[i as int], usrs, bl));
            return false;
        }
        i += 1;
    }
    true
}

/// The indices of all eligible nodes, in inventory order.
pub open spec fn eligible_indices(
    nodes: Seq<HeadscaleNode>,
    users: Seq<HeadscaleUser>,
    blacklist: Seq<Seq<char>>,
) -> Seq<int> {
    eligible_indices_from(nodes, users, blacklist, 0)
}

/// A configuration fault found while preparing the pipeline.
#[derive(Clone, Copy, PartialEq, Eq, Structural, Debug)]
pub enum ConfigError {
    InvalidWhitelistRegex,
    InvalidBlacklistRegex,
}

impl ConfigError {
    /// A human-readable description of the fault.
    pub fn message(&self) -> (r: &'static str) {
        match self {
            ConfigError::InvalidWhitelistRegex => "The whitelist regex is invalid",
            ConfigError::InvalidBlacklistRegex => "The blacklist regex is invalid",
        }
    }
}

/// The one-shot configuration of the pipeline.
#[derive(Clone, Debug)]
pub struct ProcessingSetup {
    pub middlewares: Vec<String>,
    pub allowed_users: Vec<String>,
    pub node_blacklist: Vec<String>,
    pub domain_whitelist_regex: Option<String>,
    pub domain_blacklist_regex: Option<String>,
    pub output_path: String,
    pub old_magicdns: bool,
}

/// The configured domain allowlist pattern, if any.
pub open spec fn wl_pattern(setup: ProcessingSetup) -> Option<Seq<char>> {
    match setup.domain_whitelist_regex {
        Some(s) => Some(s@),
        None => None,
    }
}

/// The configured domain blocklist pattern, if any.
pub open spec fn bl_pattern(setup: ProcessingSetup) -> Option<Seq<char>> {
    match setup.domain_blacklist_regex {
        Some(s) => Some(s@),
        None => None,
    }
}

/// Whether an optional pattern is absent or accepted by the regex
/// engine.
pub open spec fn pattern_ok(p: Option<Seq<char>>) -> bool {
    match p {
        Some(s) => regex_valid(s),
        None => true,
    }
}

/// The reconciliation pipeline's state across its phases: the fixed
/// configuration, the inventory fetched in server selection, and the
/// routes aggregated from the routers.
#[derive(Debug)]
pub struct Processing {
    pub setup: ProcessingSetup,
    pub traefik_details: TraefikAPIClientDetails,
    pub magic_tld: Vec<String>,
    pub headscale_users: Vec<HeadscaleUser>,
    pub headscale_nodes: Vec<HeadscaleNode>,
    pub traefik_nodes: Vec<usize>,
    pub traefik_router: Vec<(TraefikRouter, usize)>,
}

impl Processing {
    /// Every stored node index points into the node inventory.
    pub open spec fn wf(self) -> bool {
        (forall|i: int|
            0 <= i < self.traefik_nodes@.len() ==> (#[trigger] self.traefik_nodes@[i])
                < self.headscale_nodes@.len()) && (forall|i: int|
            0 <= i < self.traefik_router@.len() ==> (#[trigger] self.traefik_router@[i]).1
                < self.headscale_nodes@.len())
    }

    /// Build the pipeline state from the parsed configuration,
    /// rejecting an invalid domain allowlist or blocklist pattern
    /// (in that order).
    pub fn new(
        setup: ProcessingSetup,
        traefik_details: TraefikAPIClientDetails,
        magic_tld: Vec<String>,
    ) -> (r: Result<Processing, ConfigError>)
        ensures
            match r {
                Ok(p) => p.setup == setup && p.traefik_details == traefik_details && p.magic_tld
                    == magic_tld && p.headscale_users@.len() == 0 && p.headscale_nodes@.len() == 0
                    && p.traefik_nodes@.len() == 0 && p.traefik_router@.len() == 0 && pattern_ok(
                    wl_pattern(setup),
                ) && pattern_ok(bl_pattern(setup)) && p.wf(),
                Err(e) => match e {
                    ConfigError::InvalidWhitelistRegex => !pattern_ok(wl_pattern(setup)),
                    ConfigError::InvalidBlacklistRegex => pattern_ok(wl_pattern(setup))
                        && !pattern_ok(bl_pattern(setup)),
                },
            },
    {
        match &setup.domain_whitelist_regex {
            Some(p) => {
                if !regex_pattern_valid(p.as_str()) {
                    return Err(ConfigError::InvalidWhitelistRegex);
                }
            },
            None => {},
        }
        match &setup.domain_blacklist_regex {
            Some(p) => {
                if !regex_pattern_valid(p.as_str()) {
                    return Err(ConfigError::InvalidBlacklistRegex);
                }
            },
            None => {},
        }
        Ok(
            Processing {
                setup,
                traefik_details,
                magic_tld,
                headscale_users: Vec::new(),
                headscale_nodes: Vec::new(),
                traefik_nodes: Vec::new(),
                traefik_router: Vec::new(),
            },
        )
    }
}

/// Whether the details are those of the shared Traefik configuration
/// retargeted at the given host.
pub open spec fn client_details_for(
    d: TraefikAPIClientDetails,
    base: TraefikAPIClientDetails,
    host: Seq<char>,
) -> bool {
    d.prefix == base.prefix && d.suffix == base.suffix && d.user == base.user && d.password
        == base.password && (d.host matches Some(h) && h@ == host)
}

/// Whether the aggregated route list already holds a route with the
/// same (service, rule) key.
pub open spec fn route_key_in_tagged(acc: Seq<(TraefikRouter, usize)>, r: TraefikRouter) -> bool {
    exists|i: int| 0 <= i < acc.len() && same_route_key((#[trigger] acc[i]).0, r)
}

/// One router's fetched routes merged into the aggregated list:
/// a route is appended, tagged with its node, only when no route with
/// the same key was accepted before it.
pub open spec fn merge_route_list(
    list: Seq<TraefikRouter>,
    tag: usize,
    acc: Seq<(TraefikRouter, usize)>,
) -> Seq<(TraefikRouter, usize)>
    decreases list.len(),
{
    if list.len() == 0 {
        acc
    } else {
        let acc2 = if route_key_in_tagged(acc, list[0]) {
            acc
        } else {
            acc.push((list[0], tag))
        };
        merge_route_list(list.drop_first(), tag, acc2)
    }
}

/// All routers' fetched routes merged in fetch order, each tagged
/// with its node.
pub open spec fn merge_router_lists(
    lists: Seq<Seq<TraefikRouter>>,
    tags: Seq<usize>,
    acc: Seq<(TraefikRouter, usize)>,
) -> Seq<(TraefikRouter, usize)>
    decreases lists.len(),
{
    if lists.len() == 0 || tags.len() == 0 {
        acc
    } else {
        merge_router_lists(
            lists.drop_first(),
            tags.drop_first(),
            merge_route_list(lists[0], tags[0], acc),
        )
    }
}

/// Whether the aggregated list holds a route with the same key.
fn route_in_acc(acc: &Vec<(TraefikRouter, usize)>, r: &TraefikRouter) -> (b: bool)
    ensures
        b == route_key_in_tagged(acc@, *r),
{
    let mut i: usize = 0;
    while i < acc.len()
        invariant
            0 <= i <= acc@.len(),
            forall|j: int| 0 <= j < i ==> !same_route_key((#[trigger] acc@[j]).0, *r),
        decreases acc@.len() - i,
    {
        if route_key_eq(&acc[i].0, r) {
            return true;
        }
        i += 1;
    }
    false
}

impl Processing {
    /// Every selected-node index points into the node inventory.
    pub open spec fn nodes_selected_ok(self) -> bool {
        forall|i: int|
            0 <= i < self.traefik_nodes@.len() ==> (#[trigger] self.traefik_nodes@[i])
                < self.headscale_nodes@.len()
    }

    /// Every aggregated route's node tag points into the node
    /// inventory.
    pub open spec fn routers_ok(self) -> bool {
        forall|i: int|
            0 <= i < self.traefik_router@.len() ==> (#[trigger] self.traefik_router@[i]).1
                < self.headscale_nodes@.len()
    }

    /// Server selection: store the fetched inventory, apply the user
    /// allowlist and the node blocklist, and hand back one set of
    /// Traefik client details per eligible node, targeting that
    /// node's first address. Only the nodes actually targeted need an
    /// address; an address-less node that the filters drop is fine.
    pub fn update_servers(&mut self, users: Vec<HeadscaleUser>, nodes: Vec<HeadscaleNode>) -> (r:
        Result<Vec<TraefikAPIClientDetails>, TraefikUserError>)
        requires
            selectable_nodes_have_addresses(
                nodes@,
                filtered_users(users@, old(self).setup.allowed_users.deep_view()),
                old(self).setup.node_blacklist.deep_view(),
            ),
        ensures
            final(self).setup == old(self).setup,
            final(self).traefik_details == old(self).traefik_details,
            final(self).magic_tld == old(self).magic_tld,
            final(self).traefik_router == old(self).traefik_router,
            final(self).headscale_users@ == filtered_users(
                users@,
                old(self).setup.allowed_users.deep_view(),
            ),
            final(self).headscale_nodes@ == nodes@,
            final(self).nodes_selected_ok(),
            match r {
                Ok(clients) => {
                    &&& final(self).traefik_nodes@.map_values(|u: usize| u as int)
                        == eligible_indices(
                        nodes@,
                        final(self).headscale_users@,
                        old(self).setup.node_blacklist.deep_view(),
                    )
                    &&& clients@.len() == final(self).traefik_nodes@.len()
                    &&& forall|i: int|
                        0 <= i < clients@.len() ==> client_details_for(
                            #[trigger] clients@[i],
                            old(self).traefik_details,
                            nodes@[final(self).traefik_nodes@[i] as int].ip_addresses@[0]@,
                        )
                },
                Err(e) => {
                    &&& final(self).traefik_nodes@.len() == 0
                    &&& eligible_indices(
                        nodes@,
                        final(self).headscale_users@,
                        old(self).setup.node_blacklist.deep_view(),
                    ).len() > 0
                    &&& match e {
                        TraefikUserError::NoPrefix => old(self).traefik_details.prefix is None,
                        TraefikUserError::NoSuffix => old(self).traefik_details.prefix is Some
                            && old(self).traefik_details.suffix is None,
                        TraefikUserError::NoHosts => false,
                    }
                },
            },
    {
        let filtered = filter_users_exec(users, &self.setup.allowed_users);
        self.headscale_users = filtered;
        self.headscale_nodes = nodes;
        self.traefik_nodes = Vec::new();
        let ghost nds = self.headscale_nodes@;
        let ghost usrs = self.headscale_users@;
        let ghost bl = self.setup.node_blacklist.deep_view();
        let mut eligible: Vec<usize> = Vec::new();
        let mut i: usize = 0;
        proof {
            assert(eligible@.map_values(|u: usize| u as int) =~= Seq::<int>::empty());
            assert(Seq::<int>::empty() + eligible_indices(nds, usrs, bl) =~= eligible_indices(
                nds,
                usrs,
                bl,
            ));
        }
        while i < self.headscale_nodes.len()
            invariant
                self.setup == old(self).setup,
                self.traefik_details == old(self).traefik_details,
                self.magic_tld == old(self).magic_tld,
                self.traefik_router == old(self).traefik_router,
                self.traefik_nodes@.len() == 0,
                nds == self.headscale_nodes@,
                usrs == self.headscale_users@,
                bl == self.setup.node_blacklist.deep_view(),
                0 <= i <= nds.len(),
                forall|j: int| 0 <= j < eligible@.len() ==> (#[trigger] eligible@[j]) < nds.len(),
                forall|j: int|
                    0 <= j < eligible@.len() ==> node_eligible(
                        nds[(#[trigger] eligible@[j]) as int],
                        usrs,
                        bl,
                    ),
                eligible@.map_values(|u: usize| u as int) + eligible_indices_from(
                    nds,
                    usrs,
                    bl,
                    i as int,
                ) == eligible_indices(nds, usrs, bl),
            decreases nds.len() - i,
        {
            let ghost prevm = eligible@.map_values(|u: usize| u as int);
            let node = &self.headscale_nodes[i];
            let owner_ok = crate::headscale::headscale_user_list_contains_a_user(
                &self.headscale_users,
                node.user.name.as_str(),
            );
            let blocked = vec_string_contains(&self.setup.node_blacklist, &node.given_name);
            if owner_ok && !blocked {
                eligible.push(i);
                proof {
                    assert(eligible@.map_values(|u: usize| u as int) =~= prevm.push(i as int));
                    assert(prevm.push(i as int) =~= prevm + seq![i as int]);
                    assert(prevm + (seq![i as int] + eligible_indices_from(nds, usrs, bl, i + 1))
                        =~= (prevm + seq![i as int]) + eligible_indices_from(nds, usrs, bl, i + 1));
                }
            }
            i += 1;
        }
        proof {
            assert(eligible@.map_values(|u: usize| u as int) + Seq::<int>::empty() =~= eligible@
                .map_values(|u: usize| u as int));
        }
        let mut clients: Vec<TraefikAPIClientDetails> = Vec::new();
        let mut j: usize = 0;
        while j < eligible.len()
            invariant
                self.setup == old(self).setup,
                self.traefik_details == old(self).traefik_details,
                self.magic_tld == old(self).magic_tld,
                self.traefik_router == old(self).traefik_router,
                nds == self.headscale_nodes@,
                nds == nodes@,
                usrs == self.headscale_users@,
                usrs == filtered_users(users@, old(self).setup.allowed_users.deep_view()),
                bl == self.setup.node_blacklist.deep_view(),
                selectable_nodes_have_addresses(nds, usrs, bl),
                forall|k: int| 0 <= k < eligible@.len() ==> (#[trigger] eligible@[k]) < nds.len(),
                forall|k: int|
                    0 <= k < eligible@.len() ==> node_eligible(
                        nds[(#[trigger] eligible@[k]) as int],
                        usrs,
                        bl,
                    ),
                eligible@.map_values(|u: usize| u as int) == eligible_indices(nds, usrs, bl),
                0 <= j <= eligible@.len(),
                clients@.len() == j,
                self.traefik_nodes@.len() == 0,
                forall|k: int|
                    0 <= k < j ==> client_details_for(
                        #[trigger] clients@[k],
                        self.traefik_details,
                        nds[eligible@[k] as int].ip_addresses@[0]@,
                    ),
            decreases eligible@.len() - j,
        {
            let idx = eligible[j];
            proof {
                assert(node_eligible(nds[idx as int], usrs, bl));
                assert(nds[idx as int].ip_addresses@.len() > 0);
            }
            let node = &self.headscale_nodes[idx];
            let first = &node.ip_addresses[0];
            match self.traefik_details.from_custom_host(first.as_str()) {
                Ok(d) => {
                    clients.push(d);
                },
                Err(e) => {
                    proof {
                        assert(eligible_indices(nds, usrs, bl).len() == eligible@.map_values(
                            |u: usize| u as int,
                        ).len());
                    }
                    return Err(e);
                },
            }
            j += 1;
        }
        self.traefik_nodes = eligible;
        Ok(clients)
    }

    /// Router aggregation: merge the per-router route lists, in fetch
    /// order, into one deduplicated list of routes tagged with their
    /// originating node.
    pub fn update_routers(&mut self, router_lists: Vec<Vec<TraefikRouter>>)
        requires
            old(self).nodes_selected_ok(),
            router_lists@.len() == old(self).traefik_nodes@.len(),
        ensures
            final(self).setup == old(self).setup,
            final(self).traefik_details == old(self).traefik_details,
            final(self).magic_tld == old(self).magic_tld,
            final(self).headscale_users == old(self).headscale_users,
            final(self).headscale_nodes == old(self).headscale_nodes,
            final(self).traefik_nodes == old(self).traefik_nodes,
            final(self).traefik_router@ == merge_router_lists(
                router_lists@.map_values(|v: Vec<TraefikRouter>| v@),
                old(self).traefik_nodes@,
                Seq::empty(),
            ),
            final(self).wf(),
    {
        let ghost lists0 = router_lists@.map_values(|v: Vec<TraefikRouter>| v@);
        let ghost tags0 = self.traefik_nodes@;
        let ghost target = merge_router_lists(lists0, tags0, Seq::<(TraefikRouter, usize)>::empty());
        let mut lists = router_lists;
        let mut acc: Vec<(TraefikRouter, usize)> = Vec::new();
        let mut li: usize = 0;
        let n_tags = self.traefik_nodes.len();
        assert(tags0.len() == n_tags);
        proof {
            assert(lists@.map_values(|v: Vec<TraefikRouter>| v@) =~= lists0);
            assert(tags0.skip(0) =~= tags0);
        }
        while lists.len() > 0
            invariant
                *self == *old(self),
                tags0 == self.traefik_nodes@,
                self.nodes_selected_ok(),
                tags0.len() <= usize::MAX,
                0 <= li <= tags0.len(),
                lists@.len() == tags0.len() - li,
                merge_router_lists(
                    lists@.map_values(|v: Vec<TraefikRouter>| v@),
                    tags0.skip(li as int),
                    acc@,
                ) == target,
                forall|k: int|
                    0 <= k < acc@.len() ==> (#[trigger] acc@[k]).1 < self.headscale_nodes@.len(),
            decreases lists@.len(),
        {
            let ghost lists_before = lists@.map_values(|v: Vec<TraefikRouter>| v@);
            let tag = self.traefik_nodes[li];
            let mut list = lists.remove(0);
            let ghost list0 = list@;
            let ghost inner_target = merge_route_list(list0, tag, acc@);
            proof {
                assert(lists@.map_values(|v: Vec<TraefikRouter>| v@) =~= lists_before.drop_first());
                assert(tags0.skip(li as int).drop_first() =~= tags0.skip(li as int + 1));
                assert(lists_before[0] == list0);
                assert(tags0.skip(li as int)[0] == tags0[li as int]);
            }
            while list.len() > 0
                invariant
                    *self == *old(self),
                    tag < self.headscale_nodes@.len(),
                    merge_route_list(list@, tag, acc@) == inner_target,
                    forall|k: int|
                        0 <= k < acc@.len() ==> (#[trigger] acc@[k]).1
                            < self.headscale_nodes@.len(),
                decreases list@.len(),
            {
                let ghost lb = list@;
                let route = list.remove(0);
                proof {
                    assert(lb[0] == route);
                    assert(list@ =~= lb.drop_first());
                }
                if !route_in_acc(&acc, &route) {
                    acc.push((route, tag));
                }
            }
            li += 1;
        }
        proof {
            assert(lists@.map_values(|v: Vec<TraefikRouter>| v@).len() == 0);
        }
        self.traefik_router = acc;
    }
}

/// Whether a name passes the domain allowlist: vacuously when none is
/// configured.
pub open spec fn wl_ok(wl: Option<Seq<char>>, name: Seq<char>) -> bool {
    match wl {
        Some(p) => regex_match(p, name),
        None => true,
    }
}

/// Whether a name is struck by the domain blocklist: never when none
/// is configured.
pub open spec fn bl_hit(bl: Option<Seq<char>>, name: Seq<char>) -> bool {
    match bl {
        Some(p) => regex_match(p, name),
        None => false,
    }
}

/// Whether a candidate record survives the per-candidate checks, in
/// their fixed order: not a duplicate key, passes the allowlist, not
/// struck by the blocklist.
pub open spec fn domain_accepted(
    acc: Seq<RecordModel>,
    name: Seq<char>,
    rtype: RecordType,
    wl: Option<Seq<char>>,
    bl: Option<Seq<char>>,
) -> bool {
    !record_key_in(acc, name, rtype) && wl_ok(wl, name) && !bl_hit(bl, name)
}

/// The output after offering every candidate (domain, one address) of
/// one address in domain order.
pub open spec fn sift_domains(
    domains: Seq<Seq<char>>,
    ip: Seq<char>,
    wl: Option<Seq<char>>,
    bl: Option<Seq<char>>,
    acc: Seq<RecordModel>,
) -> Seq<RecordModel>
    decreases domains.len(),
{
    if domains.len() == 0 {
        acc
    } else {
        let rtype = addr_record_type(ip);
        let acc2 = if domain_accepted(acc, domains[0], rtype, wl, bl) {
            acc.push(RecordModel { name: domains[0], rtype, value: ip })
        } else {
            acc
        };
        sift_domains(domains.drop_first(), ip, wl, bl, acc2)
    }
}

/// The output after offering every (address, domain) candidate of one
/// route, addresses outermost.
pub open spec fn sift_addresses(
    ips: Seq<Seq<char>>,
    domains: Seq<Seq<char>>,
    wl: Option<Seq<char>>,
    bl: Option<Seq<char>>,
    acc: Seq<RecordModel>,
) -> Seq<RecordModel>
    decreases ips.len(),
{
    if ips.len() == 0 {
        acc
    } else {
        sift_addresses(ips.drop_first(), domains, wl, bl, sift_domains(domains, ips[0], wl, bl, acc))
    }
}

/// The router-derived output: every aggregated route offered in
/// order, gated by the middleware allowlist.
pub open spec fn route_records(
    routes: Seq<(TraefikRouter, HeadscaleNode)>,
    allow: Seq<Seq<char>>,
    wl: Option<Seq<char>>,
    bl: Option<Seq<char>>,
    acc: Seq<RecordModel>,
) -> Seq<RecordModel>
    decreases routes.len(),
{
    if routes.len() == 0 {
        acc
    } else {
        let acc2 = if middleware_gate(allow, middlewares_view(routes[0].0.middlewares)) {
            sift_addresses(
                routes[0].1.ip_addresses.deep_view(),
                extract_domains(routes[0].0.rule@),
                wl,
                bl,
                acc,
            )
        } else {
            acc
        };
        route_records(routes.drop_first(), allow, wl, bl, acc2)
    }
}

/// The legacy MagicDNS records of one node address, one per suffix,
/// appended unconditionally.
pub open spec fn legacy_tlds(
    tlds: Seq<Seq<char>>,
    given: Seq<char>,
    owner: Seq<char>,
    ip: Seq<char>,
    acc: Seq<RecordModel>,
) -> Seq<RecordModel>
    decreases tlds.len(),
{
    if tlds.len() == 0 {
        acc
    } else {
        legacy_tlds(
            tlds.drop_first(),
            given,
            owner,
            ip,
            acc.push(
                RecordModel {
                    name: magic_dns_name(given, owner, tlds[0]),
                    rtype: addr_record_type(ip),
                    value: ip,
                },
            ),
        )
    }
}

/// The legacy MagicDNS records of one node, addresses outermost.
pub open spec fn legacy_ips(
    ips: Seq<Seq<char>>,
    given: Seq<char>,
    owner: Seq<char>,
    tlds: Seq<Seq<char>>,
    acc: Seq<RecordModel>,
) -> Seq<RecordModel>
    decreases ips.len(),
{
    if ips.len() == 0 {
        acc
    } else {
        legacy_ips(ips.drop_first(), given, owner, tlds, legacy_tlds(tlds, given, owner, ips[0], acc))
    }
}

/// The legacy MagicDNS records of the whole node inventory, appended
/// in inventory order, bypassing every filter and the deduplication.
pub open spec fn legacy_nodes(
    nodes: Seq<HeadscaleNode>,
    tlds: Seq<Seq<char>>,
    acc: Seq<RecordModel>,
) -> Seq<RecordModel>
    decreases nodes.len(),
{
    if nodes.len() == 0 {
        acc
    } else {
        legacy_nodes(
            nodes.drop_first(),
            tlds,
            legacy_ips(
                nodes[0].ip_addresses.deep_view(),
                nodes[0].given_name@,
                nodes[0].user.name@,
                tlds,
                acc,
            ),
        )
    }
}

impl Processing {
    /// The aggregated routes paired with their owning nodes.
    pub open spec fn paired_routes(self) -> Seq<(TraefikRouter, HeadscaleNode)> {
        Seq::new(
            self.traefik_router@.len(),
            |i: int|
                (self.traefik_router@[i].0, self.headscale_nodes@[self.traefik_router@[i].1 as int]),
        )
    }

    /// The whole synthesized output: the router-derived records, then
    /// the legacy MagicDNS records when that mode is enabled.
    pub open spec fn generated_records(self) -> Seq<RecordModel> {
        let base = route_records(
            self.paired_routes(),
            self.setup.middlewares.deep_view(),
            wl_pattern(self.setup),
            bl_pattern(self.setup),
            Seq::empty(),
        );
        if self.setup.old_magicdns {
            legacy_nodes(self.headscale_nodes@, self.magic_tld.deep_view(), base)
        } else {
            base
        }
    }

    /// Record synthesis: walk the aggregated routes in order, apply
    /// the middleware gate, extract each route's domains, synthesize
    /// one candidate per (address, domain), keep it when it is no
    /// duplicate, passes the allowlist and is not blocklisted; then
    /// append the legacy MagicDNS records for the full inventory when
    /// that mode is on.
    pub fn generate_records(&self) -> (r: Result<Vec<DnsRecord>, ConfigError>)
        requires
            self.routers_ok(),
        ensures
            match r {
                Ok(v) => pattern_ok(wl_pattern(self.setup)) && pattern_ok(bl_pattern(self.setup))
                    && records_model(v@) == self.generated_records(),
                Err(e) => match e {
                    ConfigError::InvalidWhitelistRegex => !pattern_ok(wl_pattern(self.setup)),
                    ConfigError::InvalidBlacklistRegex => pattern_ok(wl_pattern(self.setup))
                        && !pattern_ok(bl_pattern(self.setup)),
                },
            },
    {
        match &self.setup.domain_whitelist_regex {
            Some(p) => {
                if !regex_pattern_valid(p.as_str()) {
                    return Err(ConfigError::InvalidWhitelistRegex);
                }
            },
            None => {},
        }
        match &self.setup.domain_blacklist_regex {
            Some(p) => {
                if !regex_pattern_valid(p.as_str()) {
                    return Err(ConfigError::InvalidBlacklistRegex);
                }
            },
            None => {},
        }
        let ghost wl = wl_pattern(self.setup);
        let ghost bl = bl_pattern(self.setup);
        let ghost allow = self.setup.middlewares.deep_view();
        let ghost routes = self.paired_routes();
        let ghost base_target = route_records(routes, allow, wl, bl, Seq::empty());
        let mut entries: Vec<DnsRecord> = Vec::new();
        let mut ri: usize = 0;
        proof {
            assert(records_model(entries@) =~= Seq::<RecordModel>::empty());
            assert(routes.skip(0) =~= routes);
        }
        while ri < self.traefik_router.len()
            invariant
                self.routers_ok(),
                wl == wl_pattern(self.setup),
                bl == bl_pattern(self.setup),
                pattern_ok(wl),
                pattern_ok(bl),
                allow == self.setup.middlewares.deep_view(),
                routes == self.paired_routes(),
                routes.len() == self.traefik_router@.len(),
                0 <= ri <= routes.len(),
                route_records(routes.skip(ri as int), allow, wl, bl, records_model(entries@))
                    == base_target,
            decreases routes.len() - ri,
        {
            let router = &self.traefik_router[ri].0;
            let tag = self.traefik_router[ri].1;
            assert((self.traefik_router@[ri as int]).1 < self.headscale_nodes@.len());
            let node = &self.headscale_nodes[tag];
            let ghost acc0 = records_model(entries@);
            proof {
                assert(routes[ri as int] == (self.traefik_router@[ri as int].0,
                self.headscale_nodes@[self.traefik_router@[ri as int].1 as int]));
                assert(routes.skip(ri as int)[0] == routes[ri as int]);
                assert(routes.skip(ri as int).drop_first() =~= routes.skip(ri as int + 1));
            }
            let gate = middleware_gate_exec(&self.setup.middlewares, &router.middlewares);
            if gate {
                let domains = router.get_domain_list();
                let ghost doms = domains.deep_view();
                let ghost ips = node.ip_addresses.deep_view();
                let ghost addr_target = sift_addresses(ips, doms, wl, bl, acc0);
                let mut ai: usize = 0;
                proof {
                    assert(ips.skip(0) =~= ips);
                }
                while ai < node.ip_addresses.len()
                    invariant
                        wl == wl_pattern(self.setup),
                        bl == bl_pattern(self.setup),
                        pattern_ok(wl),
                        pattern_ok(bl),
                        doms == domains.deep_view(),
                        ips == node.ip_addresses.deep_view(),
                        ips.len() == node.ip_addresses@.len(),
                        0 <= ai <= ips.len(),
                        sift_addresses(ips.skip(ai as int), doms, wl, bl, records_model(entries@))
                            == addr_target,
                    decreases ips.len() - ai,
                {
                    let ip = &node.ip_addresses[ai];
                    let rtype = record_type_of_address(ip.as_str());
                    let ghost dacc0 = records_model(entries@);
                    let ghost dtarget = sift_domains(doms, ips[ai as int], wl, bl, dacc0);
                    proof {
                        assert(ips[ai as int] == ip@);
                        assert(ips.skip(ai as int)[0] == ips[ai as int]);
                        assert(ips.skip(ai as int).drop_first() =~= ips.skip(ai as int + 1));
                        assert(doms.skip(0) =~= doms);
                    }
                    let mut di: usize = 0;
                    while di < domains.len()
                        invariant
                            wl == wl_pattern(self.setup),
                            bl == bl_pattern(self.setup),
                            pattern_ok(wl),
                            pattern_ok(bl),
                            doms == domains.deep_view(),
                            doms.len() == domains@.len(),
                            rtype == addr_record_type(ip@),
                            0 <= di <= doms.len(),
                            sift_domains(
                                doms.skip(di as int),
                                ip@,
                                wl,
                                bl,
                                records_model(entries@),
                            ) == dtarget,
                        decreases doms.len() - di,
                    {
                        let dname = &domains[di];
                        let ghost cur = records_model(entries@);
                        proof {
                            assert(doms[di as int] == dname@);
                            assert(doms.skip(di as int)[0] == doms[di as int]);
                            assert(doms.skip(di as int).drop_first() =~= doms.skip(di as int + 1));
                        }
                        let dup = record_key_present(&entries, dname, rtype);
                        let mut accepted = !dup;
                        if accepted {
                            match &self.setup.domain_whitelist_regex {
                                Some(p) => {
                                    match regex_try_match(p.as_str(), dname.as_str()) {
                                        Some(b) => {
                                            accepted = b;
                                        },
                                        None => {
                                            proof {
                                                assert(false);
                                            }
                                            accepted = false;
                                        },
                                    }
                                },
                                None => {},
                            }
                        }
                        if accepted {
                            match &self.setup.domain_blacklist_regex {
                                Some(p) => {
                                    match regex_try_match(p.as_str(), dname.as_str()) {
                                        Some(b) => {
                                            accepted = !b;
                                        },
                                        None => {
                                            proof {
                                                assert(false);
                                            }
                                            accepted = false;
                                        },
                                    }
                                },
                                None => {},
                            }
                        }
                        assert(accepted == domain_accepted(cur, dname@, rtype, wl, bl));
                        if accepted {
                            let rec = DnsRecord {
                                name: dname.clone(),
                                record_type: rtype,
                                value: ip.clone(),
                            };
                            assert(rec.model() == (RecordModel {
                                name: dname@,
                                rtype: rtype,
                                value: ip@,
                            }));
                            entries.push(rec);
                            proof {
                                assert(records_model(entries@) =~= cur.push(
                                    RecordModel { name: dname@, rtype: rtype, value: ip@ },
                                ));
                            }
                        }
                        di += 1;
                    }
                    ai += 1;
                }
            }
            ri += 1;
        }
        proof {
            assert(routes.skip(routes.len() as int).len() == 0);
            assert(records_model(entries@) == base_target);
        }
        if self.setup.old_magicdns {
            let ghost tlds = self.magic_tld.deep_view();
            let ghost nodes_all = self.headscale_nodes@;
            let ghost legacy_target = legacy_nodes(nodes_all, tlds, records_model(entries@));
            let mut ni: usize = 0;
            proof {
                assert(nodes_all.skip(0) =~= nodes_all);
            }
            while ni < self.headscale_nodes.len()
                invariant
                    tlds == self.magic_tld.deep_view(),
                    nodes_all == self.headscale_nodes@,
                    0 <= ni <= nodes_all.len(),
                    legacy_nodes(nodes_all.skip(ni as int), tlds, records_model(entries@))
                        == legacy_target,
                decreases nodes_all.len() - ni,
            {
                let node = &self.headscale_nodes[ni];
                let ghost given = node.given_name@;
                let ghost owner = node.user.name@;
                let ghost ips = node.ip_addresses.deep_view();
                let ghost ip_target = legacy_ips(ips, given, owner, tlds, records_model(entries@));
                proof {
                    assert(nodes_all.skip(ni as int)[0] == nodes_all[ni as int]);
                    assert(nodes_all.skip(ni as int).drop_first() =~= nodes_all.skip(ni as int + 1));
                    assert(ips.skip(0) =~= ips);
                }
                let mut ai: usize = 0;
                while ai < node.ip_addresses.len()
                    invariant
                        tlds == self.magic_tld.deep_view(),
                        given == node.given_name@,
                        owner == node.user.name@,
                        ips == node.ip_addresses.deep_view(),
                        ips.len() == node.ip_addresses@.len(),
                        0 <= ai <= ips.len(),
                        legacy_ips(ips.skip(ai as int), given, owner, tlds, records_model(entries@))
                            == ip_target,
                    decreases ips.len() - ai,
                {
                    let ip = &node.ip_addresses[ai];
                    let rtype = record_type_of_address(ip.as_str());
                    let names = node.get_magic_dns_domains(&self.magic_tld);
                    let ghost tacc0 = records_model(entries@);
                    let ghost tld_target = legacy_tlds(tlds, given, owner, ips[ai as int], tacc0);
                    proof {
                        assert(ips[ai as int] == ip@);
                        assert(ips.skip(ai as int)[0] == ips[ai as int]);
                        assert(ips.skip(ai as int).drop_first() =~= ips.skip(ai as int + 1));
                        assert(tlds.skip(0) =~= tlds);
                    }
                    let mut ti: usize = 0;
                    while ti < names.len()
                        invariant
                            tlds == self.magic_tld.deep_view(),
                            tlds.len() == self.magic_tld@.len(),
                            names@.len() == tlds.len(),
                            forall|t: int|
                                0 <= t < names@.len() ==> (#[trigger] names@[t])@
                                    == magic_dns_name(given, owner, tlds[t]),
                            rtype == addr_record_type(ip@),
                            0 <= ti <= tlds.len(),
                            legacy_tlds(
                                tlds.skip(ti as int),
                                given,
                                owner,
                                ip@,
                                records_model(entries@),
                            ) == tld_target,
                        decreases tlds.len() - ti,
                    {
                        let ghost cur = records_model(entries@);
                        proof {
                            assert(tlds.skip(ti as int)[0] == tlds[ti as int]);
                            assert(tlds.skip(ti as int).drop_first() =~= tlds.skip(ti as int + 1));
                        }
                        let rec = DnsRecord {
                            name: names[ti].clone(),
                            record_type: rtype,
                            value: ip.clone(),
                        };
                        entries.push(rec);
                        proof {
                            assert(records_model(entries@) =~= cur.push(
                                RecordModel {
                                    name: magic_dns_name(given, owner, tlds[ti as int]),
                                    rtype: rtype,
                                    value: ip@,
                                },
                            ));
                        }
                        ti += 1;
                    }
                    ai += 1;
                }
                ni += 1;
            }
            proof {
                assert(nodes_all.skip(nodes_all.len() as int).len() == 0);
            }
        }
        Ok(entries)
    }
}

/// No two records of the list share a (name, record type) key.
pub open spec fn distinct_record_keys(recs: Seq<RecordModel>) -> bool {
    forall|i: int, j: int|
        0 <= i < j < recs.len() ==> !((#[trigger] recs[i]).name == (#[trigger] recs[j]).name
            && recs[i].rtype == recs[j].rtype)
}

proof fn lemma_push_keeps_distinct(acc: Seq<RecordModel>, rec: RecordModel)
    requires
        distinct_record_keys(acc),
        !record_key_in(acc, rec.name, rec.rtype),
    ensures
        distinct_record_keys(acc.push(rec)),
{
    let r = acc.push(rec);
    assert forall|i: int, j: int| 0 <= i < j < r.len() implies !((#[trigger] r[i]).name == (
    #[trigger] r[j]).name && r[i].rtype == r[j].rtype) by {
        if j == acc.len() {
            assert(r[i] == acc[i]);
            if r[i].name == rec.name && r[i].rtype == rec.rtype {
                assert(record_key_in(acc, rec.name, rec.rtype));
            }
        } else {
            assert(r[i] == acc[i] && r[j] == acc[j]);
        }
    }
}

proof fn lemma_sift_domains_distinct(
    domains: Seq<Seq<char>>,
    ip: Seq<char>,
    wl: Option<Seq<char>>,
    bl: Option<Seq<char>>,
    acc: Seq<RecordModel>,
)
    requires
        distinct_record_keys(acc),
    ensures
        distinct_record_keys(sift_domains(domains, ip, wl, bl, acc)),
    decreases domains.len(),
{
    if domains.len() == 0 {
    } else {
        let rtype = addr_record_type(ip);
        if domain_accepted(acc, domains[0], rtype, wl, bl) {
            lemma_push_keeps_distinct(
                acc,
                RecordModel { name: domains[0], rtype, value: ip },
            );
            lemma_sift_domains_distinct(
                domains.drop_first(),
                ip,
                wl,
                bl,
                acc.push(RecordModel { name: domains[0], rtype, value: ip }),
            );
        } else {
            lemma_sift_domains_distinct(domains.drop_first(), ip, wl, bl, acc);
        }
    }
}

proof fn lemma_sift_addresses_distinct(
    ips: Seq<Seq<char>>,
    domains: Seq<Seq<char>>,
    wl: Option<Seq<char>>,
    bl: Option<Seq<char>>,
    acc: Seq<RecordModel>,
)
    requires
        distinct_record_keys(acc),
    ensures
        distinct_record_keys(sift_addresses(ips, domains, wl, bl, acc)),
    decreases ips.len(),
{
    if ips.len() == 0 {
    } else {
        lemma_sift_domains_distinct(domains, ips[0], wl, bl, acc);
        lemma_sift_addresses_distinct(
            ips.drop_first(),
            domains,
            wl,
            bl,
            sift_domains(domains, ips[0], wl, bl, acc),
        );
    }
}

proof fn lemma_route_records_distinct(
    routes: Seq<(TraefikRouter, HeadscaleNode)>,
    allow: Seq<Seq<char>>,
    wl: Option<Seq<char>>,
    bl: Option<Seq<char>>,
    acc: Seq<RecordModel>,
)
    requires
        distinct_record_keys(acc),
    ensures
        distinct_record_keys(route_records(routes, allow, wl, bl, acc)),
    decreases routes.len(),
{
    if routes.len() == 0 {
    } else {
        if middleware_gate(allow, middlewares_view(routes[0].0.middlewares)) {
            lemma_sift_addresses_distinct(
                routes[0].1.ip_addresses.deep_view(),
                extract_domains(routes[0].0.rule@),
                wl,
                bl,
                acc,
            );
            lemma_route_records_distinct(
                routes.drop_first(),
                allow,
                wl,
                bl,
                sift_addresses(
                    routes[0].1.ip_addresses.deep_view(),
                    extract_domains(routes[0].0.rule@),
                    wl,
                    bl,
                    acc,
                ),
            );
        } else {
            lemma_route_records_distinct(routes.drop_first(), allow, wl, bl, acc);
        }
    }
}

/// Pairwise uniqueness of the output: with legacy MagicDNS naming
/// disabled, the synthesized record set holds no two records with an
/// equal (name, record type) key. (The legacy step appends
/// unconditionally, so with it enabled a node with two addresses of
/// one family repeats a key on purpose.)
pub proof fn lemma_output_unique_keys(p: Processing)
    requires
        !p.setup.old_magicdns,
    ensures
        distinct_record_keys(p.generated_records()),
{
    lemma_route_records_distinct(
        p.paired_routes(),
        p.setup.middlewares.deep_view(),
        wl_pattern(p.setup),
        bl_pattern(p.setup),
        Seq::empty(),
    );
}

/// Record synthesis is deterministic: two runs over the same
/// aggregated state yield the same record list, so writing its
/// serialization twice yields identical bytes.
pub proof fn lemma_generation_deterministic(
    p: Processing,
    r1: Seq<RecordModel>,
    r2: Seq<RecordModel>,
)
    requires
        r1 == p.generated_records(),
        r2 == p.generated_records(),
    ensures
        r1 == r2,
{
}

/// With an empty middleware allowlist every route passes the
/// middleware gate, whatever middleware list it declares, including
/// none at all.
pub proof fn lemma_middleware_gate_empty(mws: Option<Seq<Seq<char>>>)
    ensures
        middleware_gate(Seq::empty(), mws),
{
}

/// A non-empty allowlist together with an absent middleware list
/// never passes.
pub proof fn lemma_middleware_gate_requires_list(allow: Seq<Seq<char>>)
    requires
        allow.len() > 0,
    ensures
        !middleware_gate(allow, None),
{
}

/// The blocklist is decisive: a candidate whose name the domain
/// blocklist strikes is never accepted, even when it also passes the
/// domain allowlist.
pub proof fn lemma_blocklisted_name_rejected(
    acc: Seq<RecordModel>,
    name: Seq<char>,
    rtype: RecordType,
    wl: Option<Seq<char>>,
    bl: Option<Seq<char>>,
)
    requires
        bl_hit(bl, name),
    ensures
        !domain_accepted(acc, name, rtype, wl, bl),
{
}

proof fn lemma_sift_domains_filtered(
    domains: Seq<Seq<char>>,
    ip: Seq<char>,
    wl: Option<Seq<char>>,
    bl: Option<Seq<char>>,
    acc: Seq<RecordModel>,
)
    ensures
        ({
            let r = sift_domains(domains, ip, wl, bl, acc);
            &&& acc.len() <= r.len()
            &&& r.take(acc.len() as int) == acc
            &&& forall|k: int|
                acc.len() <= k < r.len() ==> wl_ok(wl, (#[trigger] r[k]).name) && !bl_hit(
                    bl,
                    r[k].name,
                )
        }),
    decreases domains.len(),
{
    if domains.len() == 0 {
        assert(sift_domains(domains, ip, wl, bl, acc).take(acc.len() as int) =~= acc);
    } else {
        let rtype = addr_record_type(ip);
        let accepted = domain_accepted(acc, domains[0], rtype, wl, bl);
        let acc2 = if accepted {
            acc.push(RecordModel { name: domains[0], rtype, value: ip })
        } else {
            acc
        };
        lemma_sift_domains_filtered(domains.drop_first(), ip, wl, bl, acc2);
        let r = sift_domains(domains, ip, wl, bl, acc);
        assert(r == sift_domains(domains.drop_first(), ip, wl, bl, acc2));
        assert(r.take(acc2.len() as int) == acc2);
        if accepted {
            assert(acc2.take(acc.len() as int) =~= acc);
            assert(r.take(acc.len() as int) =~= r.take(acc2.len() as int).take(acc.len() as int));
            assert forall|k: int|
                acc.len() <= k < r.len() implies wl_ok(wl, (#[trigger] r[k]).name) && !bl_hit(
                bl,
                r[k].name,
            ) by {
                if k < acc2.len() {
                    assert(r[k] == r.take(acc2.len() as int)[k]);
                    assert(r[k] == acc2[k]);
                    assert(k == acc.len());
                }
            }
        }
    }
}

proof fn lemma_sift_addresses_filtered(
    ips: Seq<Seq<char>>,
    domains: Seq<Seq<char>>,
    wl: Option<Seq<char>>,
    bl: Option<Seq<char>>,
    acc: Seq<RecordModel>,
)
    ensures
        ({
            let r = sift_addresses(ips, domains, wl, bl, acc);
            &&& acc.len() <= r.len()
            &&& r.take(acc.len() as int) == acc
            &&& forall|k: int|
                acc.len() <= k < r.len() ==> wl_ok(wl, (#[trigger] r[k]).name) && !bl_hit(
                    bl,
                    r[k].name,
                )
        }),
    decreases ips.len(),
{
    if ips.len() == 0 {
        assert(sift_addresses(ips, domains, wl, bl, acc).take(acc.len() as int) =~= acc);
    } else {
        lemma_sift_domains_filtered(domains, ips[0], wl, bl, acc);
        let acc2 = sift_domains(domains, ips[0], wl, bl, acc);
        lemma_sift_addresses_filtered(ips.drop_first(), domains, wl, bl, acc2);
        let r = sift_addresses(ips, domains, wl, bl, acc);
        assert(r.take(acc.len() as int) =~= r.take(acc2.len() as int).take(acc.len() as int));
        assert forall|k: int|
            acc.len() <= k < r.len() implies wl_ok(wl, (#[trigger] r[k]).name) && !bl_hit(
            bl,
            r[k].name,
        ) by {
            if k < acc2.len() {
                assert(r[k] == r.take(acc2.len() as int)[k]);
                assert(r[k] == acc2[k]);
            }
        }
    }
}

proof fn lemma_route_records_filtered(
    routes: Seq<(TraefikRouter, HeadscaleNode)>,
    allow: Seq<Seq<char>>,
    wl: Option<Seq<char>>,
    bl: Option<Seq<char>>,
    acc: Seq<RecordModel>,
)
    ensures
        ({
            let r = route_records(routes, allow, wl, bl, acc);
            &&& acc.len() <= r.len()
            &&& r.take(acc.len() as int) == acc
            &&& forall|k: int|
                acc.len() <= k < r.len() ==> wl_ok(wl, (#[trigger] r[k]).name) && !bl_hit(
                    bl,
                    r[k].name,
                )
        }),
    decreases routes.len(),
{
    if routes.len() == 0 {
        assert(route_records(routes, allow, wl, bl, acc).take(acc.len() as int) =~= acc);
    } else {
        let acc2 = if middleware_gate(allow, middlewares_view(routes[0].0.middlewares)) {
            sift_addresses(
                routes[0].1.ip_addresses.deep_view(),
                extract_domains(routes[0].0.rule@),
                wl,
                bl,
                acc,
            )
        } else {
            acc
        };
        if middleware_gate(allow, middlewares_view(routes[0].0.middlewares)) {
            lemma_sift_addresses_filtered(
                routes[0].1.ip_addresses.deep_view(),
                extract_domains(routes[0].0.rule@),
                wl,
                bl,
                acc,
            );
        }
        lemma_route_records_filtered(routes.drop_first(), allow, wl, bl, acc2);
        let r = route_records(routes, allow, wl, bl, acc);
        assert(r.take(acc.len() as int) =~= r.take(acc2.len() as int).take(acc.len() as int));
        assert forall|k: int|
            acc.len() <= k < r.len() implies wl_ok(wl, (#[trigger] r[k]).name) && !bl_hit(
            bl,
            r[k].name,
        ) by {
            if k < acc2.len() {
                assert(r[k] == r.take(acc2.len() as int)[k]);
                assert(r[k] == acc2[k]);
            }
        }
    }
}

/// Every router-derived record of the output passed the domain
/// allowlist and escaped the domain blocklist; in particular a name
/// matching both patterns never appears, since the blocklist, checked
/// last, strikes it.
pub proof fn lemma_router_records_respect_domain_filters(p: Processing)
    ensures
        ({
            let base = route_records(
                p.paired_routes(),
                p.setup.middlewares.deep_view(),
                wl_pattern(p.setup),
                bl_pattern(p.setup),
                Seq::empty(),
            );
            forall|k: int|
                0 <= k < base.len() ==> wl_ok(wl_pattern(p.setup), (#[trigger] base[k]).name)
                    && !bl_hit(bl_pattern(p.setup), base[k].name)
        }),
{
    lemma_route_records_filtered(
        p.paired_routes(),
        p.setup.middlewares.deep_view(),
        wl_pattern(p.setup),
        bl_pattern(p.setup),
        Seq::empty(),
    );
}

proof fn lemma_legacy_tlds_extends(
    tlds: Seq<Seq<char>>,
    given: Seq<char>,
    owner: Seq<char>,
    ip: Seq<char>,
    acc: Seq<RecordModel>,
)
    ensures
        ({
            let r = legacy_tlds(tlds, given, owner, ip, acc);
            acc.len() <= r.len() && r.take(acc.len() as int) == acc
        }),
    decreases tlds.len(),
{
    if tlds.len() == 0 {
        assert(legacy_tlds(tlds, given, owner, ip, acc).take(acc.len() as int) =~= acc);
    } else {
        let acc2 = acc.push(
            RecordModel {
                name: magic_dns_name(given, owner, tlds[0]),
                rtype: addr_record_type(ip),
                value: ip,
            },
        );
        lemma_legacy_tlds_extends(tlds.drop_first(), given, owner, ip, acc2);
        let r = legacy_tlds(tlds, given, owner, ip, acc);
        assert(acc2.take(acc.len() as int) =~= acc);
        assert(r.take(acc.len() as int) =~= r.take(acc2.len() as int).take(acc.len() as int));
    }
}

proof fn lemma_legacy_ips_extends(
    ips: Seq<Seq<char>>,
    given: Seq<char>,
    owner: Seq<char>,
    tlds: Seq<Seq<char>>,
    acc: Seq<RecordModel>,
)
    ensures
        ({
            let r = legacy_ips(ips, given, owner, tlds, acc);
            acc.len() <= r.len() && r.take(acc.len() as int) == acc
        }),
    decreases ips.len(),
{
    if ips.len() == 0 {
        assert(legacy_ips(ips, given, owner, tlds, acc).take(acc.len() as int) =~= acc);
    } else {
        lemma_legacy_tlds_extends(tlds, given, owner, ips[0], acc);
        let acc2 = legacy_tlds(tlds, given, owner, ips[0], acc);
        lemma_legacy_ips_extends(ips.drop_first(), given, owner, tlds, acc2);
        let r = legacy_ips(ips, given, owner, tlds, acc);
        assert(r.take(acc.len() as int) =~= r.take(acc2.len() as int).take(acc.len() as int));
    }
}

proof fn lemma_legacy_nodes_extends(
    nodes: Seq<HeadscaleNode>,
    tlds: Seq<Seq<char>>,
    acc: Seq<RecordModel>,
)
    ensures
        ({
            let r = legacy_nodes(nodes, tlds, acc);
            acc.len() <= r.len() && r.take(acc.len() as int) == acc
        }),
    decreases nodes.len(),
{
    if nodes.len() == 0 {
        assert(legacy_nodes(nodes, tlds, acc).take(acc.len() as int) =~= acc);
    } else {
        lemma_legacy_ips_extends(
            nodes[0].ip_addresses.deep_view(),
            nodes[0].given_name@,
            nodes[0].user.name@,
            tlds,
            acc,
        );
        let acc2 = legacy_ips(
            nodes[0].ip_addresses.deep_view(),
            nodes[0].given_name@,
            nodes[0].user.name@,
            tlds,
            acc,
        );
        lemma_legacy_nodes_extends(nodes.drop_first(), tlds, acc2);
        let r = legacy_nodes(nodes, tlds, acc);
        assert(r.take(acc.len() as int) =~= r.take(acc2.len() as int).take(acc.len() as int));
    }
}

/// The legacy step only appends: the router-derived records stand
/// unchanged at the front of the output, and among themselves they
/// never share a (name, record type) key, whether or not legacy
/// naming is enabled.
pub proof fn lemma_router_part_unique_keys(p: Processing)
    ensures
        ({
            let base = route_records(
                p.paired_routes(),
                p.setup.middlewares.deep_view(),
                wl_pattern(p.setup),
                bl_pattern(p.setup),
                Seq::empty(),
            );
            base.len() <= p.generated_records().len() && p.generated_records().take(
                base.len() as int,
            ) == base && distinct_record_keys(base)
        }),
{
    let base = route_records(
        p.paired_routes(),
        p.setup.middlewares.deep_view(),
        wl_pattern(p.setup),
        bl_pattern(p.setup),
        Seq::empty(),
    );
    lemma_route_records_distinct(
        p.paired_routes(),
        p.setup.middlewares.deep_view(),
        wl_pattern(p.setup),
        bl_pattern(p.setup),
        Seq::empty(),
    );
    if p.setup.old_magicdns {
        lemma_legacy_nodes_extends(p.headscale_nodes@, p.magic_tld.deep_view(), base);
    } else {
        assert(p.generated_records().take(base.len() as int) =~= base);
    }
}

/// No two routes of the aggregated list share a (service, rule) key.
pub open spec fn distinct_route_keys(acc: Seq<(TraefikRouter, usize)>) -> bool {
    forall|i: int, j: int|
        0 <= i < j < acc.len() ==> !same_route_key((#[trigger] acc[i]).0, (#[trigger] acc[j]).0)
}

proof fn lemma_merge_route_list_distinct(
    list: Seq<TraefikRouter>,
    tag: usize,
    acc: Seq<(TraefikRouter, usize)>,
)
    requires
        distinct_route_keys(acc),
    ensures
        distinct_route_keys(merge_route_list(list, tag, acc)),
    decreases list.len(),
{
    if list.len() == 0 {
    } else {
        let acc2 = if route_key_in_tagged(acc, list[0]) {
            acc
        } else {
            acc.push((list[0], tag))
        };
        if !route_key_in_tagged(acc, list[0]) {
            assert forall|i: int, j: int| 0 <= i < j < acc2.len() implies !same_route_key(
                (#[trigger] acc2[i]).0,
                (#[trigger] acc2[j]).0,
            ) by {
                if j == acc.len() {
                    assert(acc2[i] == acc[i]);
                    if same_route_key(acc2[i].0, acc2[j].0) {
                        assert(route_key_in_tagged(acc, list[0]));
                    }
                } else {
                    assert(acc2[i] == acc[i] && acc2[j] == acc[j]);
                }
            }
        }
        lemma_merge_route_list_distinct(list.drop_first(), tag, acc2);
    }
}

proof fn lemma_merge_router_lists_distinct(
    lists: Seq<Seq<TraefikRouter>>,
    tags: Seq<usize>,
    acc: Seq<(TraefikRouter, usize)>,
)
    requires
        distinct_route_keys(acc),
    ensures
        distinct_route_keys(merge_router_lists(lists, tags, acc)),
    decreases lists.len(),
{
    if lists.len() == 0 || tags.len() == 0 {
    } else {
        lemma_merge_route_list_distinct(lists[0], tags[0], acc);
        lemma_merge_router_lists_distinct(
            lists.drop_first(),
            tags.drop_first(),
            merge_route_list(lists[0], tags[0], acc),
        );
    }
}

/// Route deduplication sees only the (service, rule) key: the
/// aggregated route list never holds two routes with an equal key,
/// whatever their middleware lists, so of two incoming routes that
/// differ only in middlewares the first encountered is kept.
pub proof fn lemma_aggregated_routes_unique(lists: Seq<Seq<TraefikRouter>>, tags: Seq<usize>)
    ensures
        distinct_route_keys(merge_router_lists(lists, tags, Seq::empty())),
{
    lemma_merge_router_lists_distinct(lists, tags, Seq::empty());
}

} // verus!
