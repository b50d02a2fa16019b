//! Nodes that are known from a Consul agent: what this node registers there,
//! which members are read back, and what is held when the agent is silent.
use crate::batch;
use crate::cluster;
use crate::cluster::{Discovery, NodeInfo, Role};
use crate::counter;
use crate::json;
use crate::json::Held;
use crate::text;
use vstd::prelude::*;

verus! {

/// The service that every node registers as.
pub const SERVICE: &'static str = "timelakedb";

/// How long a node counts as alive after it said so.
pub const CHECK_TTL_SECS: u64 = 30;

// ------------------------------------------------------------- what is registered

/// What a node registers with the agent.
#[derive(Debug)]
pub struct Registration {
    pub id: String,
    pub name: String,
    pub address: String,
    pub port: u16,
    pub role: String,
    pub cluster_addr: String,
    pub data_addr: String,
    pub check_id: String,
    pub ttl: String,
    pub deregister_after: String,
}

/// The host and the port of an address: what stands before and behind its last
/// colon. There is no port where that is no number of sixteen bits.
pub open spec fn host_port(addr: Seq<char>) -> (Seq<char>, nat) {
    match text::cut_back(addr, ':', addr.len() as int) {
        Some((host, port)) => (
            host,
            match text::unsigned_of(port, u16::MAX as nat) {
                Some(n) => n,
                None => 0,
            },
        ),
        None => (addr, 0),
    }
}

/// The host and the port of an address.
pub fn split_host_port(addr: &str) -> (r: (String, u16))
    ensures
        (r.0@, r.1 as nat) == host_port(addr@),
{
    match text::cut_last(addr, ':') {
        Some((host, port)) => {
            match text::read_unsigned(port.as_str(), 0xffff) {
                Some(n) => (host, n as u16),
                None => (host, 0),
            }
        },
        None => (addr.to_owned(), 0),
    }
}

/// The name of a node's health check.
pub fn check_id(node_id: &str) -> (r: String)
    ensures
        r@ == "service:"@ + node_id@,
{
    let mut s = "service:".to_owned();
    s.append(node_id);
    s
}

/// What a node registers: besides its address, its role and both its addresses
/// as they are, so that another node can tell what it is.
pub fn registration(this: &NodeInfo) -> (r: Registration)
    ensures
        r.id@ == this.id@,
        r.name@ == SERVICE@,
        (r.address@, r.port as nat) == host_port(this.address@),
        r.role@ == cluster::role_text(this.role),
        r.cluster_addr@ == this.address@,
        r.data_addr@ == this.data_address@,
        r.check_id@ == "service:"@ + this.id@,
        r.ttl@ == text::decimal(CHECK_TTL_SECS as nat) + "s"@,
        r.deregister_after@ == "1m"@,
{
    let (address, port) = split_host_port(this.address.as_str());
    let mut ttl = text::show(CHECK_TTL_SECS);
    ttl.append("s");
    Registration {
        id: this.id.clone(),
        name: SERVICE.to_owned(),
        address,
        port,
        role: this.role.as_str().to_owned(),
        cluster_addr: this.address.clone(),
        data_addr: this.data_address.clone(),
        check_id: check_id(this.id.as_str()),
        ttl,
        deregister_after: "1m".to_owned(),
    }
}

/// What a node registers besides its address, under the names by which another
/// node reads it.
pub open spec fn meta_of(r: Registration) -> Seq<(Seq<char>, Held)> {
    seq![
        ("cluster_addr"@, Held::Text(r.cluster_addr@)),
        ("data_addr"@, Held::Text(r.data_addr@)),
        ("role"@, Held::Text(r.role@)),
    ]
}

/// The JSON of a registration.
pub open spec fn registration_text(r: Registration) -> Seq<char> {
    "{\"Address\":"@ + json::json_text(r.address@) + ",\"Check\":{\"CheckID\":"@ + json::json_text(
        r.check_id@,
    ) + ",\"DeregisterCriticalServiceAfter\":"@ + json::json_text(r.deregister_after@)
        + ",\"TTL\":"@ + json::json_text(r.ttl@) + "},\"ID\":"@ + json::json_text(r.id@)
        + ",\"Meta\":"@ + json::object_text(meta_of(r)) + ",\"Name\":"@ + json::json_text(r.name@)
        + ",\"Port\":"@ + text::decimal(r.port as nat) + "}"@
}

proof fn lemma_meta_text(r: Registration)
    ensures
        json::object_text(meta_of(r)) == "{\"cluster_addr\":"@ + json::json_text(r.cluster_addr@)
            + ",\"data_addr\":"@ + json::json_text(r.data_addr@) + ",\"role\":"@ + json::json_text(
            r.role@,
        ) + "}"@,
{
    reveal_strlit("{\"cluster_addr\":");
    reveal_strlit(",\"data_addr\":");
    reveal_strlit(",\"role\":");
    reveal_strlit("cluster_addr");
    reveal_strlit("data_addr");
    reveal_strlit("role");
    reveal_strlit("{");
    reveal_strlit(",");
    reveal_strlit("\"");
    reveal_strlit("\":");
    let m = meta_of(r);
    let one = seq![m[0]];
    let two = seq![m[0], m[1]];
    assert(m.drop_last() =~= two);
    assert(two.drop_last() =~= one);
    assert(json::members_text(one) == "\""@ + m[0].0 + "\":"@ + json::held_text(m[0].1));
    assert(json::members_text(two) == json::members_text(one) + ","@ + ("\""@ + m[1].0 + "\":"@
        + json::held_text(m[1].1)));
    assert(json::members_text(m) == json::members_text(two) + ","@ + ("\""@ + m[2].0 + "\":"@
        + json::held_text(m[2].1)));
    assert(json::object_text(m) =~= "{\"cluster_addr\":"@ + json::json_text(r.cluster_addr@)
        + ",\"data_addr\":"@ + json::json_text(r.data_addr@) + ",\"role\":"@ + json::json_text(
        r.role@,
    ) + "}"@);
}

/// The JSON of a registration, as the agent takes it.
pub fn registration_body(r: &Registration) -> (s: String)
    ensures
        s@ == registration_text(*r),
{
    let mut s = String::new();
    json::put_text(&mut s, "{\"Address\":", r.address.as_str());
    json::put_text(&mut s, ",\"Check\":{\"CheckID\":", r.check_id.as_str());
    json::put_text(&mut s, ",\"DeregisterCriticalServiceAfter\":", r.deregister_after.as_str());
    json::put_text(&mut s, ",\"TTL\":", r.ttl.as_str());
    json::put_text(&mut s, "},\"ID\":", r.id.as_str());
    s.append(",\"Meta\":");
    let ghost front = s@;
    json::put_text(&mut s, "{\"cluster_addr\":", r.cluster_addr.as_str());
    json::put_text(&mut s, ",\"data_addr\":", r.data_addr.as_str());
    json::put_text(&mut s, ",\"role\":", r.role.as_str());
    s.append("}");
    proof {
        lemma_meta_text(*r);
        assert(s@ =~= front + json::object_text(meta_of(*r)));
    }
    json::put_text(&mut s, ",\"Name\":", r.name.as_str());
    json::put_number(&mut s, ",\"Port\":", r.port as u64);
    s.append("}");
    assert(s@ =~= registration_text(*r));
    s
}

/// An address without slashes at its end.
pub open spec fn without_slash(s: Seq<char>) -> Seq<char>
    decreases s.len(),
{
    if s.len() > 0 && s.last() == '/' {
        without_slash(s.drop_last())
    } else {
        s
    }
}

/// The address of the agent without slashes at its end.
pub fn base_url(s: &str) -> (r: String)
    ensures
        r@ == without_slash(s@),
{
    let chars = text::chars_of(s);
    let mut n: usize = chars.len();
    assert(chars@.take(n as int) =~= s@);
    while n > 0 && chars[n - 1] == '/'
        invariant
            n <= chars.len(),
            chars@ == s@,
            without_slash(s@) == without_slash(s@.take(n as int)),
        decreases n,
    {
        assert(s@.take(n as int).drop_last() =~= s@.take(n - 1));
        n -= 1;
    }
    assert(n > 0 ==> s@.take(n as int).last() == s@[n - 1]);
    let r = text::slice_text(&chars, 0, n);
    assert(r@ =~= s@.take(n as int));
    r
}

// ----------------------------------------------------------- what is read back

/// A service as the agent lists it: the texts that are there.
#[derive(Debug)]
pub struct Service {
    pub id: Option<String>,
    pub role: Option<String>,
    pub cluster_addr: Option<String>,
    pub data_addr: Option<String>,
}

/// What a `Service` says.
#[verifier::ext_equal]
pub struct ServiceView {
    pub id: Option<Seq<char>>,
    pub role: Option<Seq<char>>,
    pub cluster_addr: Option<Seq<char>>,
    pub data_addr: Option<Seq<char>>,
}

impl View for Service {
    type V = ServiceView;

    open spec fn view(&self) -> ServiceView {
        ServiceView {
            id: batch::opt_text(self.id),
            role: batch::opt_text(self.role),
            cluster_addr: batch::opt_text(self.cluster_addr),
            data_addr: batch::opt_text(self.data_addr),
        }
    }
}

/// What services say.
pub open spec fn service_views(v: Seq<Service>) -> Seq<ServiceView> {
    v.map_values(|s: Service| s@)
}

/// What an optional list of services says.
pub open spec fn listed(v: Option<Vec<Service>>) -> Option<Seq<ServiceView>> {
    match v {
        Some(l) => Some(service_views(l@)),
        None => None,
    }
}

/// Where a service has its name.
pub const AT_ID: &'static str = "/Service/ID";

/// Where a service has the role that it registered.
pub const AT_ROLE: &'static str = "/Service/Meta/role";

/// Where a service has the address for other nodes that it registered.
pub const AT_CLUSTER_ADDR: &'static str = "/Service/Meta/cluster_addr";

/// Where a service has the address for data that it registered.
pub const AT_DATA_ADDR: &'static str = "/Service/Meta/data_addr";

/// The text at a place of one item of the agent's answer, if one stands there.
pub open spec fn said_at(body: Seq<u8>, at: Seq<char>, i: int) -> Option<Seq<char>> {
    match json::list_at(body, ""@, at) {
        Ok(Some(l)) => if 0 <= i < l.len() {
            l[i]
        } else {
            None
        },
        _ => None,
    }
}

/// What one item of the agent's answer says.
pub open spec fn service_at(body: Seq<u8>, i: int) -> ServiceView {
    ServiceView {
        id: said_at(body, AT_ID@, i),
        role: said_at(body, AT_ROLE@, i),
        cluster_addr: said_at(body, AT_CLUSTER_ADDR@, i),
        data_addr: said_at(body, AT_DATA_ADDR@, i),
    }
}

/// The services of the agent's answer; nothing where that is no JSON array.
pub open spec fn services_in(body: Seq<u8>) -> Option<Seq<ServiceView>> {
    match json::list_at(body, ""@, AT_ID@) {
        Ok(Some(l)) => Some(Seq::new(l.len(), |i: int| service_at(body, i))),
        _ => None,
    }
}

/// The texts at a place of the items of the agent's answer.
fn texts_in(body: &[u8], at: &str) -> (r: Vec<Option<String>>)
    ensures
        match json::list_at(body@, ""@, at@) {
            Ok(Some(l)) => json::opt_texts(r@) == l,
            _ => r@.len() == 0,
        },
{
    match json::read_list(body, "", at) {
        Ok(Some(l)) => l,
        _ => Vec::new(),
    }
}

fn item(list: &Vec<Option<String>>, i: usize) -> (r: Option<String>)
    ensures
        batch::opt_text(r) == (if i < list@.len() {
            json::opt_texts(list@)[i as int]
        } else {
            None
        }),
{
    if i < list.len() {
        batch::copy_opt(&list[i])
    } else {
        None
    }
}

fn read_services(body: &[u8]) -> (r: Option<Vec<Service>>)
    ensures
        listed(r) == services_in(body@),
{
    let ids = match json::read_list(body, "", AT_ID) {
        Ok(Some(l)) => l,
        _ => {
            return None;
        },
    };
    let roles = texts_in(body, AT_ROLE);
    let cluster_addrs = texts_in(body, AT_CLUSTER_ADDR);
    let data_addrs = texts_in(body, AT_DATA_ADDR);
    let mut out: Vec<Service> = Vec::new();
    let mut i: usize = 0;
    while i < ids.len()
        invariant
            i <= ids.len(),
            json::list_at(body@, ""@, AT_ID@) == Ok::<Option<Seq<Option<Seq<char>>>>, Seq<char>>(
                Some(json::opt_texts(ids@)),
            ),
            match json::list_at(body@, ""@, AT_ROLE@) {
                Ok(Some(l)) => json::opt_texts(roles@) == l,
                _ => roles@.len() == 0,
            },
            match json::list_at(body@, ""@, AT_CLUSTER_ADDR@) {
                Ok(Some(l)) => json::opt_texts(cluster_addrs@) == l,
                _ => cluster_addrs@.len() == 0,
            },
            match json::list_at(body@, ""@, AT_DATA_ADDR@) {
                Ok(Some(l)) => json::opt_texts(data_addrs@) == l,
                _ => data_addrs@.len() == 0,
            },
            out.len() == i,
            forall|k: int| 0 <= k < i ==> (#[trigger] out@[k])@ == service_at(body@, k),
        decreases ids.len() - i,
    {
        let s = Service {
            id: item(&ids, i),
            role: item(&roles, i),
            cluster_addr: item(&cluster_addrs, i),
            data_addr: item(&data_addrs, i),
        };
        assert(s@ == service_at(body@, i as int));
        out.push(s);
        i += 1;
    }
    assert(service_views(out@) =~= services_in(body@)->Some_0);
    Some(out)
}

/// A text, or nothing at all in its place.
pub open spec fn or_none(s: Option<Seq<char>>) -> Seq<char> {
    match s {
        Some(t) => t,
        None => Seq::empty(),
    }
}

/// The node that a service is: none where it has no name, is this node itself,
/// or has no role that is known.
pub open spec fn member_of(s: ServiceView, self_id: Seq<char>) -> Option<cluster::NodeView> {
    if or_none(s.id).len() == 0 || or_none(s.id) == self_id {
        None
    } else {
        match s.role {
            None => None,
            Some(r) => match cluster::role_named(r) {
                None => None,
                Some(role) => Some(
                    cluster::NodeView {
                        id: or_none(s.id),
                        role,
                        address: or_none(s.cluster_addr),
                        data_address: or_none(s.data_addr),
                    },
                ),
            },
        }
    }
}

/// The nodes that services are, in their order.
pub open spec fn members_in(list: Seq<ServiceView>, self_id: Seq<char>) -> Seq<cluster::NodeView>
    decreases list.len(),
{
    if list.len() == 0 {
        Seq::empty()
    } else {
        let p = members_in(list.drop_last(), self_id);
        match member_of(list.last(), self_id) {
            Some(n) => p.push(n),
            None => p,
        }
    }
}

fn text_or_none(s: &Option<String>) -> (r: String)
    ensures
        r@ == or_none(batch::opt_text(*s)),
{
    match s {
        Some(t) => t.clone(),
        None => {
            let none = String::new();
            assert(none@ =~= Seq::empty());
            none
        },
    }
}

fn member(s: &Service, self_id: &str) -> (r: Option<NodeInfo>)
    ensures
        match (r, member_of(s@, self_id@)) {
            (Some(n), Some(v)) => n@ == v,
            (None, None) => true,
            _ => false,
        },
{
    let id = text_or_none(&s.id);
    if id.as_str().unicode_len() == 0 || text::same(id.as_str(), self_id) {
        return None;
    }
    match &s.role {
        None => None,
        Some(r) => {
            match Role::parse(r.as_str()) {
                Err(_) => None,
                Ok(role) => Some(
                    NodeInfo {
                        id,
                        role,
                        address: text_or_none(&s.cluster_addr),
                        data_address: text_or_none(&s.data_addr),
                    },
                ),
            }
        },
    }
}

/// The nodes that listed services are. A garbled one is passed over and not
/// taken for a node of some role.
pub fn members_of(list: &Option<Vec<Service>>, self_id: &str) -> (r: Vec<NodeInfo>)
    ensures
        cluster::node_views(r@) == (match listed(*list) {
            Some(l) => members_in(l, self_id@),
            None => Seq::empty(),
        }),
{
    let mut out: Vec<NodeInfo> = Vec::new();
    assert(cluster::node_views(out@) =~= Seq::empty());
    if let Some(l) = list {
        let ghost all = service_views(l@);
        let mut i: usize = 0;
        assert(all.take(0) =~= Seq::empty());
        while i < l.len()
            invariant
                i <= l.len(),
                all == service_views(l@),
                cluster::node_views(out@) == members_in(all.take(i as int), self_id@),
            decreases l.len() - i,
        {
            assert(all.take(i + 1).drop_last() =~= all.take(i as int));
            assert(all[i as int] == l@[i as int]@);
            let ghost done = cluster::node_views(out@);
            if let Some(n) = member(&l[i], self_id) {
                let ghost v = n@;
                out.push(n);
                assert(cluster::node_views(out@) =~= done.push(v));
            }
            i += 1;
        }
        assert(all.take(all.len() as int) =~= all);
    }
    out
}

/// The nodes of the agent's answer, in its order.
pub fn parse_members(body: &[u8], self_id: &str) -> (r: Vec<NodeInfo>)
    ensures
        cluster::node_views(r@) == (match services_in(body@) {
            Some(l) => members_in(l, self_id@),
            None => Seq::empty(),
        }),
{
    let list = read_services(body);
    members_of(&list, self_id)
}

/// Nodes in the order of their names with one more, behind those that have its
/// name.
pub open spec fn placed(nodes: Seq<cluster::NodeView>, n: cluster::NodeView) -> Seq<
    cluster::NodeView,
>
    decreases nodes.len(),
{
    if nodes.len() == 0 || !text::before(n.id, nodes.last().id) {
        nodes.push(n)
    } else {
        placed(nodes.drop_last(), n).push(nodes.last())
    }
}

/// Nodes in the order of their names.
pub open spec fn by_name(nodes: Seq<cluster::NodeView>) -> Seq<cluster::NodeView>
    decreases nodes.len(),
{
    if nodes.len() == 0 {
        Seq::empty()
    } else {
        placed(by_name(nodes.drop_last()), nodes.last())
    }
}

fn place(nodes: &mut Vec<NodeInfo>, n: NodeInfo)
    ensures
        cluster::node_views(final(nodes)@) == placed(cluster::node_views(old(nodes)@), n@),
{
    let ghost was = cluster::node_views(nodes@);
    let ghost y = n@;
    let mut at: usize = nodes.len();
    assert(was.take(was.len() as int) =~= was);
    assert(placed(was, y) =~= placed(was.take(at as int), y) + was.skip(at as int));
    while at > 0 && text::comes_before(n.id.as_str(), nodes[at - 1].id.as_str())
        invariant
            at <= nodes.len(),
            was == cluster::node_views(nodes@),
            y == n@,
            placed(was, y) == placed(was.take(at as int), y) + was.skip(at as int),
        decreases at,
    {
        proof {
            let p = was.take(at as int);
            assert(p.last() == nodes@[at - 1]@);
            assert(p.drop_last() =~= was.take(at - 1));
            assert(placed(p, y) + was.skip(at as int) =~= placed(was.take(at - 1), y) + was.skip(
                at - 1,
            ));
        }
        at -= 1;
    }
    assert(at > 0 ==> was.take(at as int).last() == nodes@[at - 1]@);
    nodes.insert(at, n);
    assert(cluster::node_views(nodes@) =~= was.take(at as int).push(y) + was.skip(at as int));
}

/// The nodes in the order of their names, so that two answers with the same
/// nodes read the same.
pub fn sort_members(nodes: &Vec<NodeInfo>) -> (r: Vec<NodeInfo>)
    ensures
        cluster::node_views(r@) == by_name(cluster::node_views(nodes@)),
{
    let ghost all = cluster::node_views(nodes@);
    let mut r: Vec<NodeInfo> = Vec::new();
    let mut i: usize = 0;
    assert(all.take(0) =~= Seq::empty());
    assert(cluster::node_views(r@) =~= Seq::empty());
    while i < nodes.len()
        invariant
            i <= nodes.len(),
            all == cluster::node_views(nodes@),
            cluster::node_views(r@) == by_name(all.take(i as int)),
        decreases nodes.len() - i,
    {
        assert(all.take(i + 1).drop_last() =~= all.take(i as int));
        assert(all[i as int] == nodes@[i as int]@);
        place(&mut r, nodes[i].copy());
        i += 1;
    }
    assert(all.take(all.len() as int) =~= all);
    r
}

// ------------------------------------------------------------ what is held

/// How the refreshes went.
#[derive(Debug, Clone, Copy, PartialEq, Eq, Structural)]
pub struct ConsulStats {
    pub refreshes: u64,
    pub refresh_failures: u64,
    /// Whether the last refresh failed.
    pub degraded: bool,
}

impl Default for ConsulStats {
    fn default() -> (r: ConsulStats)
        ensures
            r == (ConsulStats { refreshes: 0, refresh_failures: 0, degraded: false }),
    {
        ConsulStats { refreshes: 0, refresh_failures: 0, degraded: false }
    }
}

/// What an operator is told after a refresh.
#[derive(Debug, Clone, Copy, PartialEq, Eq, Structural)]
pub enum Notice {
    Nothing,
    /// The agent answers again.
    Recovered,
    /// The agent does not answer any more.
    Degraded,
}

/// Nodes that are known from the agent: this one, and the others as of the last
/// refresh that went well.
pub struct ConsulDiscovery {
    pub this: NodeInfo,
    pub members: Vec<NodeInfo>,
    pub stats: ConsulStats,
}

impl ConsulDiscovery {
    /// A node that knows no other one yet.
    pub fn new(this: NodeInfo) -> (r: ConsulDiscovery)
        ensures
            r.this == this,
            r.members@.len() == 0,
            r.stats == (ConsulStats { refreshes: 0, refresh_failures: 0, degraded: false }),
    {
        ConsulDiscovery { this, members: Vec::new(), stats: ConsulStats::default() }
    }

    /// How the refreshes went.
    pub fn stats(&self) -> (r: &ConsulStats)
        ensures
            *r == self.stats,
    {
        &self.stats
    }

    /// Takes notice of a refresh: the members that were read, or nothing where
    /// it failed. A failure leaves the members as they are.
    pub fn refreshed(&mut self, outcome: Option<Vec<NodeInfo>>) -> (r: Notice)
        ensures
            final(self).this == old(self).this,
            match outcome {
                Some(members) => {
                    &&& cluster::node_views(final(self).members@) == by_name(
                        cluster::node_views(members@),
                    )
                    &&& final(self).stats == (ConsulStats {
                        refreshes: counter::one_more(old(self).stats.refreshes),
                        refresh_failures: old(self).stats.refresh_failures,
                        degraded: false,
                    })
                    &&& r == (if old(self).stats.degraded {
                        Notice::Recovered
                    } else {
                        Notice::Nothing
                    })
                },
                None => {
                    &&& final(self).members == old(self).members
                    &&& final(self).stats == (ConsulStats {
                        refreshes: old(self).stats.refreshes,
                        refresh_failures: counter::one_more(old(self).stats.refresh_failures),
                        degraded: true,
                    })
                    &&& r == (if old(self).stats.degraded {
                        Notice::Nothing
                    } else {
                        Notice::Degraded
                    })
                },
            },
    {
        let was: bool = self.stats.degraded;
        match outcome {
            Some(members) => {
                self.members = sort_members(&members);
                self.stats.refreshes = counter::up(self.stats.refreshes);
                self.stats.degraded = false;
                if was {
                    Notice::Recovered
                } else {
                    Notice::Nothing
                }
            },
            None => {
                self.stats.refresh_failures = counter::up(self.stats.refresh_failures);
                self.stats.degraded = true;
                if was {
                    Notice::Nothing
                } else {
                    Notice::Degraded
                }
            },
        }
    }
}

impl Discovery for ConsulDiscovery {
    open spec fn me(&self) -> cluster::NodeView {
        self.this@
    }

    open spec fn others(&self) -> Seq<cluster::NodeView> {
        cluster::node_views(self.members@)
    }

    fn this_node(&self) -> (r: &NodeInfo) {
        &self.this
    }

    fn peers(&self) -> (r: Vec<NodeInfo>) {
        cluster::copy_nodes(&self.members)
    }
}

/// A node that registers is read back by the others as what it is: with its
/// name, its role and both its addresses. The agent lists a service under its
/// name, with what it registered under the names that it registered it by.
pub proof fn registrations_read_back(
    body: Seq<u8>,
    i: int,
    r: Registration,
    node: cluster::NodeView,
    self_id: Seq<char>,
)
    requires
        r.id@ == node.id,
        r.role@ == cluster::role_text(node.role),
        r.cluster_addr@ == node.address,
        r.data_addr@ == node.data_address,
        node.id.len() > 0,
        node.id != self_id,
        said_at(body, AT_ID@, i) == Some(r.id@),
        forall|k: int|
            0 <= k < meta_of(r).len() ==> Some((#[trigger] meta_of(r)[k]).1) == (match said_at(
                body,
                "/Service/Meta/"@ + meta_of(r)[k].0,
                i,
            ) {
                Some(t) => Some(Held::Text(t)),
                None => None,
            }),
    ensures
        services_in(body) matches Some(l) && 0 <= i < l.len() && member_of(l[i], self_id) == Some(
            node,
        ),
{
    reveal_strlit("/Service/Meta/");
    reveal_strlit("cluster_addr");
    reveal_strlit("data_addr");
    reveal_strlit("role");
    reveal_strlit("/Service/Meta/cluster_addr");
    reveal_strlit("/Service/Meta/data_addr");
    reveal_strlit("/Service/Meta/role");
    let m = meta_of(r);
    assert(AT_CLUSTER_ADDR@ =~= "/Service/Meta/"@ + m[0].0);
    assert(AT_DATA_ADDR@ =~= "/Service/Meta/"@ + m[1].0);
    assert(AT_ROLE@ =~= "/Service/Meta/"@ + m[2].0);
    cluster::role_names_read_back(node.role);
}

/// A node never counts itself among the others.
pub proof fn a_node_is_not_its_own_peer(list: Seq<ServiceView>, self_id: Seq<char>, i: int)
    requires
        0 <= i < members_in(list, self_id).len(),
    ensures
        members_in(list, self_id)[i].id != self_id,
        members_in(list, self_id)[i].id.len() > 0,
    decreases list.len(),
{
    if list.len() > 0 {
        let p = members_in(list.drop_last(), self_id);
        if i < p.len() {
            a_node_is_not_its_own_peer(list.drop_last(), self_id, i);
        }
    }
}

/// An address is a host and, behind its last colon, a port.
pub proof fn an_address_is_a_host_and_a_port(host: Seq<char>, port: u16)
    ensures
        host_port(host + seq![':'] + text::decimal(port as nat)) == (host, port as nat),
        !host.contains(':') ==> host_port(host) == (host, 0nat),
{
    let d = text::decimal(port as nat);
    text::decimal_spells(port as nat);
    text::unsigned_numerals_read_back(port as nat, u16::MAX as nat);
    assert(!d.contains(':')) by {
        if d.contains(':') {
            let i = choose|i: int| 0 <= i < d.len() && d[i] == ':';
            assert(text::is_digit(d[i]));
        }
    }
    text::a_text_is_cut_at_the_last(host, ':', d);
    if !host.contains(':') {
        text::a_text_is_cut_at_the_last(host, ':', host);
    }
}

/// Only slashes at the end are taken off, and all of them.
pub proof fn slashes_at_the_end_are_taken_off(s: Seq<char>, n: nat)
    requires
        s.len() > 0 ==> s.last() != '/',
    ensures
        without_slash(s + Seq::new(n, |i: int| '/')) == s,
    decreases n,
{
    let t = s + Seq::new(n, |i: int| '/');
    if n == 0 {
        assert(t =~= s);
    } else {
        slashes_at_the_end_are_taken_off(s, (n - 1) as nat);
        assert(t.drop_last() =~= s + Seq::new((n - 1) as nat, |i: int| '/'));
        assert(t.last() == '/');
    }
}

/// A service is a member exactly if it has a name of its own and a role; the
/// member has its name, its role and its addresses.
pub proof fn a_service_with_a_name_and_a_role_is_a_member(
    s: ServiceView,
    self_id: Seq<char>,
    id: Seq<char>,
    r: cluster::Role,
)
    requires
        s.id == Some(id),
        id.len() > 0,
        s.role == Some(cluster::role_text(r)),
    ensures
        id == self_id ==> member_of(s, self_id) is None,
        id != self_id ==> {
            &&& member_of(s, self_id) is Some
            &&& member_of(s, self_id)->Some_0.id == id
            &&& member_of(s, self_id)->Some_0.role == r
            &&& s.cluster_addr matches Some(a) ==> member_of(s, self_id)->Some_0.address == a
            &&& s.data_addr matches Some(a) ==> member_of(s, self_id)->Some_0.data_address == a
        },
{
    cluster::role_names_read_back(r);
}

/// Members are put in the order of their names, and none is lost or added.
pub proof fn members_are_ordered_by_name(nodes: Seq<cluster::NodeView>)
    ensures
        by_name(nodes).to_multiset() == nodes.to_multiset(),
        forall|i: int, j: int|
            0 <= i < j < by_name(nodes).len() ==> !text::before(
                (#[trigger] by_name(nodes)[j]).id,
                (#[trigger] by_name(nodes)[i]).id,
            ),
    decreases nodes.len(),
{
    broadcast use vstd::seq_lib::group_to_multiset_ensures;

    if nodes.len() > 0 {
        members_are_ordered_by_name(nodes.drop_last());
        lemma_placed(by_name(nodes.drop_last()), nodes.last());
        assert(nodes =~= nodes.drop_last().push(nodes.last()));
    }
}

proof fn lemma_placed(nodes: Seq<cluster::NodeView>, n: cluster::NodeView)
    requires
        forall|i: int, j: int|
            0 <= i < j < nodes.len() ==> !text::before(
                (#[trigger] nodes[j]).id,
                (#[trigger] nodes[i]).id,
            ),
    ensures
        placed(nodes, n).to_multiset() == nodes.to_multiset().insert(n),
        placed(nodes, n).len() == nodes.len() + 1,
        forall|i: int|
            0 <= i < placed(nodes, n).len() ==> #[trigger] placed(nodes, n)[i] == n || nodes.contains(
                placed(nodes, n)[i],
            ),
        forall|i: int, j: int|
            0 <= i < j < placed(nodes, n).len() ==> !text::before(
                (#[trigger] placed(nodes, n)[j]).id,
                (#[trigger] placed(nodes, n)[i]).id,
            ),
    decreases nodes.len(),
{
    broadcast use vstd::seq_lib::group_to_multiset_ensures;

    let now = placed(nodes, n);
    if nodes.len() == 0 || !text::before(n.id, nodes.last().id) {
        assert forall|i: int, j: int| 0 <= i < j < now.len() implies !text::before(
            (#[trigger] now[j]).id,
            (#[trigger] now[i]).id,
        ) by {
            if j == nodes.len() {
                let last = nodes.len() - 1;
                if i < last && text::before(n.id, nodes[i].id) {
                    assert(!text::before(nodes[last].id, nodes[i].id));
                    text::before_is_total(nodes[i].id, nodes[last].id);
                    if nodes[i].id != nodes[last].id {
                        text::before_is_transitive(n.id, nodes[i].id, nodes[last].id);
                    }
                }
            }
        }
        assert forall|i: int| 0 <= i < now.len() implies #[trigger] now[i] == n || nodes.contains(
            now[i],
        ) by {
            if i < nodes.len() {
                assert(nodes[i] == now[i]);
            }
        }
    } else {
        let init = nodes.drop_last();
        let last = nodes.last();
        assert(nodes =~= init.push(last));
        assert forall|i: int, j: int| 0 <= i < j < init.len() implies !text::before(
            (#[trigger] init[j]).id,
            (#[trigger] init[i]).id,
        ) by {
            assert(!text::before(nodes[j].id, nodes[i].id));
        }
        lemma_placed(init, n);
        let p = placed(init, n);
        assert(p.to_multiset().insert(last) =~= nodes.to_multiset().insert(n));
        assert forall|i: int| 0 <= i < now.len() implies #[trigger] now[i] == n || nodes.contains(
            now[i],
        ) by {
            if i < p.len() {
                assert(now[i] == p[i]);
                if p[i] != n {
                    let k = choose|k: int| 0 <= k < init.len() && init[k] == p[i];
                    assert(nodes[k] == now[i]);
                }
            } else {
                assert(nodes[nodes.len() - 1] == now[i]);
            }
        }
        assert forall|i: int, j: int| 0 <= i < j < now.len() implies !text::before(
            (#[trigger] now[j]).id,
            (#[trigger] now[i]).id,
        ) by {
            if j < p.len() {
                assert(!text::before(p[j].id, p[i].id));
            } else {
                assert(now[i] == p[i]);
                if p[i] == n {
                    text::before_is_total(n.id, last.id);
                } else {
                    let k = choose|k: int| 0 <= k < init.len() && init[k] == p[i];
                    assert(!text::before(nodes[nodes.len() - 1].id, nodes[k].id));
                }
            }
        }
    }
}

} // verus!
