//! What the nodes of a cluster do, and who they are.
use crate::text;
use vstd::prelude::*;

verus! {

/// What a node does.
#[derive(Debug, Clone, Copy, PartialEq, Eq, Structural)]
pub enum Role {
    All,
    Router,
    Ingester,
    Querier,
    Compactor,
}

/// The name of a role.
pub open spec fn role_text(r: Role) -> Seq<char> {
    match r {
        Role::All => "all"@,
        Role::Router => "router"@,
        Role::Ingester => "ingester"@,
        Role::Querier => "querier"@,
        Role::Compactor => "compactor"@,
    }
}

/// The role with a name, in whatever case and between whatever blanks; no name
/// at all is that of a node that does everything.
pub open spec fn role_named(s: Seq<char>) -> Option<Role> {
    let t = text::lowered(text::trimmed(s));
    if t.len() == 0 || t == "all"@ {
        Some(Role::All)
    } else if t == "router"@ {
        Some(Role::Router)
    } else if t == "ingester"@ {
        Some(Role::Ingester)
    } else if t == "querier"@ {
        Some(Role::Querier)
    } else if t == "compactor"@ {
        Some(Role::Compactor)
    } else {
        None
    }
}

impl Role {
    /// The name of the role.
    pub fn as_str(self) -> (r: &'static str)
        ensures
            r@ == role_text(self),
    {
        match self {
            Role::All => "all",
            Role::Router => "router",
            Role::Ingester => "ingester",
            Role::Querier => "querier",
            Role::Compactor => "compactor",
        }
    }

    /// The role with a name.
    pub fn parse(s: &str) -> (r: Result<Role, ClusterError>)
        ensures
            match (r, role_named(s@)) {
                (Ok(a), Some(b)) => a == b,
                (Err(ClusterError::UnknownRole(m)), None) => m@ == text::lowered(text::trimmed(s@)),
                _ => false,
            },
    {
        let trimmed = text::trim(s);
        let t = text::lower(trimmed.as_str());
        if t.as_str().unicode_len() == 0 || text::same(t.as_str(), "all") {
            Ok(Role::All)
        } else if text::same(t.as_str(), "router") {
            Ok(Role::Router)
        } else if text::same(t.as_str(), "ingester") {
            Ok(Role::Ingester)
        } else if text::same(t.as_str(), "querier") {
            Ok(Role::Querier)
        } else if text::same(t.as_str(), "compactor") {
            Ok(Role::Compactor)
        } else {
            Err(ClusterError::UnknownRole(t))
        }
    }

    /// Whether a node can be started in this role. A second compactor is not
    /// held back from the first one's work, so there is none.
    pub fn implemented(self) -> (r: bool)
        ensures
            r == (self != Role::Compactor),
    {
        match self {
            Role::All => true,
            Role::Ingester => true,
            Role::Router => true,
            Role::Querier => true,
            Role::Compactor => false,
        }
    }
}

/// The name of a role is read as that role.
pub proof fn role_names_read_back(r: Role)
    ensures
        role_named(role_text(r)) == Some(r),
{
    reveal_strlit("all");
    reveal_strlit("router");
    reveal_strlit("ingester");
    reveal_strlit("querier");
    reveal_strlit("compactor");
    let s = role_text(r);
    assert(text::trim_front(s) == s);
    assert(text::trim_back(s) == s);
    assert(text::lowered(s) =~= s);
    assert("router"@[0] == 'r');
    assert("ingester"@[0] == 'i');
    assert("querier"@[0] == 'q');
    assert("compactor"@[0] == 'c');
    assert("all"@[0] == 'a');
}

/// A node: its name, what it does, and where the other nodes and the clients
/// reach it.
#[derive(Debug, Clone)]
pub struct NodeInfo {
    pub id: String,
    pub role: Role,
    pub address: String,
    pub data_address: String,
}

/// What a `NodeInfo` says.
#[verifier::ext_equal]
pub struct NodeView {
    pub id: Seq<char>,
    pub role: Role,
    pub address: Seq<char>,
    pub data_address: Seq<char>,
}

impl View for NodeInfo {
    type V = NodeView;

    open spec fn view(&self) -> NodeView {
        NodeView {
            id: self.id@,
            role: self.role,
            address: self.address@,
            data_address: self.data_address@,
        }
    }
}

impl NodeInfo {
    /// A copy.
    pub fn copy(&self) -> (r: NodeInfo)
        ensures
            r@ == self@,
    {
        NodeInfo {
            id: self.id.clone(),
            role: self.role,
            address: self.address.clone(),
            data_address: self.data_address.clone(),
        }
    }
}

/// What nodes say.
pub open spec fn node_views(v: Seq<NodeInfo>) -> Seq<NodeView> {
    v.map_values(|n: NodeInfo| n@)
}

/// Copies of nodes.
pub fn copy_nodes(v: &Vec<NodeInfo>) -> (r: Vec<NodeInfo>)
    ensures
        node_views(r@) == node_views(v@),
{
    let ghost all = node_views(v@);
    let mut r: Vec<NodeInfo> = Vec::new();
    let mut i: usize = 0;
    while i < v.len()
        invariant
            i <= v.len(),
            r.len() == i,
            all == node_views(v@),
            forall|k: int| 0 <= k < i ==> (#[trigger] r@[k])@ == all[k],
        decreases v.len() - i,
    {
        assert(all[i as int] == v@[i as int]@);
        r.push(v[i].copy());
        i += 1;
    }
    assert(node_views(r@) =~= all);
    r
}

/// Why a role or a list of peers cannot be read.
#[derive(Debug, Clone)]
pub enum ClusterError {
    UnknownRole(String),
    MalformedPeer(String),
}

/// The reason in words.
pub open spec fn cluster_error_text(e: ClusterError) -> Seq<char> {
    match e {
        ClusterError::UnknownRole(s) => "TIMELAKE_ROLE "@ + text::debug_text(s@)
            + " is not one of all|router|ingester|querier|compactor"@,
        ClusterError::MalformedPeer(s) => "peer "@ + text::debug_text(s@)
            + " is not id=role@host:port (e.g. ing-b=ingester@ing-b:1965)"@,
    }
}

impl ClusterError {
    /// The reason in words.
    pub fn message(&self) -> (r: String)
        ensures
            r@ == cluster_error_text(*self),
    {
        match self {
            ClusterError::UnknownRole(s) => {
                let mut m = "TIMELAKE_ROLE ".to_owned();
                m.append(text::quote(s.as_str()).as_str());
                m.append(" is not one of all|router|ingester|querier|compactor");
                m
            },
            ClusterError::MalformedPeer(s) => {
                let mut m = "peer ".to_owned();
                m.append(text::quote(s.as_str()).as_str());
                m.append(" is not id=role@host:port (e.g. ing-b=ingester@ing-b:1965)");
                m
            },
        }
    }
}

// ------------------------------------------------------------------ the peers

/// Why an entry is no peer.
pub enum PeerFault {
    UnknownRole(Seq<char>),
    Malformed(Seq<char>),
}

/// Whether an error says what is wrong.
pub open spec fn says(e: ClusterError, f: PeerFault) -> bool {
    match (e, f) {
        (ClusterError::UnknownRole(s), PeerFault::UnknownRole(t)) => s@ == t,
        (ClusterError::MalformedPeer(s), PeerFault::Malformed(t)) => s@ == t,
        _ => false,
    }
}

/// The peer that an entry describes: a name, `=`, a role, `@`, an address and,
/// behind a bar, the address for clients if there is one.
pub open spec fn peer_of(entry: Seq<char>) -> Result<NodeView, PeerFault> {
    match text::cut_from(entry, '=', 0) {
        None => Err(PeerFault::Malformed(entry)),
        Some((id, rest)) => match text::cut_from(rest, '@', 0) {
            None => Err(PeerFault::Malformed(entry)),
            Some((role, addresses)) => {
                let (address, data_address) = match text::cut_from(addresses, '|', 0) {
                    Some((a, d)) => (text::trimmed(a), text::trimmed(d)),
                    None => (text::trimmed(addresses), Seq::empty()),
                };
                if text::trimmed(id).len() == 0 || address.len() == 0 {
                    Err(PeerFault::Malformed(entry))
                } else {
                    match role_named(role) {
                        None => Err(PeerFault::UnknownRole(text::lowered(text::trimmed(role)))),
                        Some(role) => Ok(
                            NodeView { id: text::trimmed(id), role, address, data_address },
                        ),
                    }
                }
            },
        },
    }
}

/// Nodes, in the order of their names, with one more: in place of the one with
/// its name if there is one.
pub open spec fn with_node(nodes: Seq<NodeView>, n: NodeView) -> Seq<NodeView>
    decreases nodes.len(),
{
    if nodes.len() == 0 || text::before(nodes.last().id, n.id) {
        nodes.push(n)
    } else if nodes.last().id == n.id {
        nodes.drop_last().push(n)
    } else {
        with_node(nodes.drop_last(), n).push(nodes.last())
    }
}

/// The peers of entries: blank ones are passed over, and of two with one name
/// the later counts.
pub open spec fn peers_of(entries: Seq<Seq<char>>) -> Result<Seq<NodeView>, PeerFault>
    decreases entries.len(),
{
    if entries.len() == 0 {
        Ok(Seq::empty())
    } else {
        match peers_of(entries.drop_last()) {
            Err(f) => Err(f),
            Ok(nodes) => {
                let entry = text::trimmed(entries.last());
                if entry.len() == 0 {
                    Ok(nodes)
                } else {
                    match peer_of(entry) {
                        Err(f) => Err(f),
                        Ok(n) => Ok(with_node(nodes, n)),
                    }
                }
            },
        }
    }
}

fn parse_peer(entry: &str) -> (r: Result<NodeInfo, ClusterError>)
    ensures
        match (r, peer_of(entry@)) {
            (Ok(n), Ok(v)) => n@ == v,
            (Err(e), Err(f)) => says(e, f),
            _ => false,
        },
{
    match text::cut(entry, '=') {
        None => Err(ClusterError::MalformedPeer(entry.to_owned())),
        Some((id, rest)) => {
            match text::cut(rest.as_str(), '@') {
                None => Err(ClusterError::MalformedPeer(entry.to_owned())),
                Some((role, addresses)) => {
                    let (address, data_address) = match text::cut(addresses.as_str(), '|') {
                        Some((a, d)) => (text::trim(a.as_str()), text::trim(d.as_str())),
                        None => {
                            let none = String::new();
                            assert(none@ =~= Seq::empty());
                            (text::trim(addresses.as_str()), none)
                        },
                    };
                    let id = text::trim(id.as_str());
                    if id.as_str().unicode_len() == 0 || address.as_str().unicode_len() == 0 {
                        return Err(ClusterError::MalformedPeer(entry.to_owned()));
                    }
                    match Role::parse(role.as_str()) {
                        Err(e) => Err(e),
                        Ok(role) => Ok(NodeInfo { id, role, address, data_address }),
                    }
                },
            }
        },
    }
}

fn put_node(nodes: &mut Vec<NodeInfo>, n: NodeInfo)
    ensures
        node_views(final(nodes)@) == with_node(node_views(old(nodes)@), n@),
{
    let ghost was = node_views(nodes@);
    let ghost y = n@;
    let mut at: usize = nodes.len();
    assert(was.take(was.len() as int) =~= was);
    assert(with_node(was, y) =~= with_node(was.take(at as int), y) + was.skip(at as int));
    while at > 0 && !text::comes_before(nodes[at - 1].id.as_str(), n.id.as_str()) && !text::same(
        nodes[at - 1].id.as_str(),
        n.id.as_str(),
    )
        invariant
            at <= nodes.len(),
            was == node_views(nodes@),
            y == n@,
            with_node(was, y) == with_node(was.take(at as int), y) + was.skip(at as int),
        decreases at,
    {
        proof {
            let p = was.take(at as int);
            assert(p.last() == nodes@[at - 1]@);
            assert(p.drop_last() =~= was.take(at - 1));
            assert(with_node(p, y) + was.skip(at as int) =~= with_node(was.take(at - 1), y)
                + was.skip(at - 1));
        }
        at -= 1;
    }
    proof {
        if at > 0 {
            assert(was.take(at as int).last() == nodes@[at - 1]@);
        }
    }
    if at > 0 && text::same(nodes[at - 1].id.as_str(), n.id.as_str()) {
        proof {
            text::before_is_total(y.id, y.id);
            assert(was.take(at as int).drop_last() =~= was.take(at - 1));
        }
        nodes.set(at - 1, n);
        assert(node_views(nodes@) =~= was.take(at - 1).push(y) + was.skip(at as int));
    } else {
        nodes.insert(at, n);
        assert(node_views(nodes@) =~= was.take(at as int).push(y) + was.skip(at as int));
    }
}

proof fn lemma_fault_stays(entries: Seq<Seq<char>>, k: int)
    requires
        0 <= k <= entries.len(),
        peers_of(entries.take(k)) is Err,
    ensures
        peers_of(entries) == peers_of(entries.take(k)),
    decreases entries.len(),
{
    if k == entries.len() {
        assert(entries.take(k) =~= entries);
    } else {
        assert(entries.drop_last().take(k) =~= entries.take(k));
        lemma_fault_stays(entries.drop_last(), k);
    }
}

/// The peers of a list that commas tell apart.
pub fn parse_peers(s: &str) -> (r: Result<Vec<NodeInfo>, ClusterError>)
    ensures
        match (r, peers_of(text::split_on(s@, ','))) {
            (Ok(nodes), Ok(v)) => node_views(nodes@) == v,
            (Err(e), Err(f)) => says(e, f),
            _ => false,
        },
{
    let entries = text::split(s, ',');
    let ghost all = text::texts(entries@);
    let mut nodes: Vec<NodeInfo> = Vec::new();
    let mut i: usize = 0;
    assert(all.take(0) =~= Seq::empty());
    assert(node_views(nodes@) =~= Seq::empty());
    while i < entries.len()
        invariant
            i <= entries.len(),
            all == text::texts(entries@),
            all == text::split_on(s@, ','),
            peers_of(all.take(i as int)) == Ok::<Seq<NodeView>, PeerFault>(node_views(nodes@)),
        decreases entries.len() - i,
    {
        assert(all.take(i + 1).drop_last() =~= all.take(i as int));
        assert(all[i as int] == entries@[i as int]@);
        let entry = text::trim(entries[i].as_str());
        if entry.as_str().unicode_len() > 0 {
            match parse_peer(entry.as_str()) {
                Err(e) => {
                    proof {
                        lemma_fault_stays(all, i + 1);
                    }
                    return Err(e);
                },
                Ok(n) => {
                    put_node(&mut nodes, n);
                },
            }
        }
        i += 1;
    }
    assert(all.take(all.len() as int) =~= all);
    Ok(nodes)
}

/// Whether nodes are in the order of their names, each name once.
pub open spec fn names_ordered(nodes: Seq<NodeView>) -> bool {
    forall|i: int, j: int|
        0 <= i < j < nodes.len() ==> text::before((#[trigger] nodes[i]).id, (#[trigger] nodes[j]).id)
}

proof fn lemma_with_node(nodes: Seq<NodeView>, n: NodeView)
    requires
        names_ordered(nodes),
    ensures
        names_ordered(with_node(nodes, n)),
        with_node(nodes, n).contains(n),
        forall|i: int|
            0 <= i < with_node(nodes, n).len() ==> (#[trigger] with_node(nodes, n)[i]) == n
                || nodes.contains(with_node(nodes, n)[i]),
    decreases nodes.len(),
{
    let q = with_node(nodes, n);
    if nodes.len() > 0 {
        let init = nodes.drop_last();
        let last = nodes.last();
        assert forall|i: int, j: int| 0 <= i < j < init.len() implies text::before(
            (#[trigger] init[i]).id,
            (#[trigger] init[j]).id,
        ) by {
            assert(text::before(nodes[i].id, nodes[j].id));
        }
        text::before_is_total(last.id, n.id);
        if text::before(last.id, n.id) {
            assert(q[nodes.len() as int] == n);
            assert forall|i: int, j: int| 0 <= i < j < q.len() implies text::before(
                (#[trigger] q[i]).id,
                (#[trigger] q[j]).id,
            ) by {
                if j == nodes.len() && i < nodes.len() - 1 {
                    assert(text::before(nodes[i].id, nodes[nodes.len() - 1].id));
                    text::before_is_transitive(nodes[i].id, last.id, n.id);
                } else if j < nodes.len() {
                    assert(text::before(nodes[i].id, nodes[j].id));
                }
            }
            assert forall|i: int| 0 <= i < q.len() implies (#[trigger] q[i]) == n
                || nodes.contains(q[i]) by {
                if i < nodes.len() {
                    assert(nodes[i] == q[i]);
                }
            }
        } else if last.id == n.id {
            assert(q[init.len() as int] == n);
            assert forall|i: int, j: int| 0 <= i < j < q.len() implies text::before(
                (#[trigger] q[i]).id,
                (#[trigger] q[j]).id,
            ) by {
                assert(text::before(nodes[i].id, nodes[j].id));
            }
            assert forall|i: int| 0 <= i < q.len() implies (#[trigger] q[i]) == n
                || nodes.contains(q[i]) by {
                if i < init.len() {
                    assert(nodes[i] == q[i]);
                }
            }
        } else {
            lemma_with_node(init, n);
            let p = with_node(init, n);
            let k = choose|k: int| 0 <= k < p.len() && p[k] == n;
            assert(q[k] == n);
            assert forall|i: int, j: int| 0 <= i < j < q.len() implies text::before(
                (#[trigger] q[i]).id,
                (#[trigger] q[j]).id,
            ) by {
                if j < p.len() {
                    assert(text::before(p[i].id, p[j].id));
                } else {
                    assert(p[i] == n || init.contains(p[i]));
                    if p[i] != n {
                        let m = choose|m: int| 0 <= m < init.len() && init[m] == p[i];
                        assert(text::before(nodes[m].id, nodes[nodes.len() - 1].id));
                    }
                }
            }
            assert forall|i: int| 0 <= i < q.len() implies (#[trigger] q[i]) == n
                || nodes.contains(q[i]) by {
                if i < p.len() {
                    assert(p[i] == n || init.contains(p[i]));
                    if p[i] != n {
                        let m = choose|m: int| 0 <= m < init.len() && init[m] == p[i];
                        assert(nodes[m] == q[i]);
                    }
                } else {
                    assert(nodes[nodes.len() - 1] == q[i]);
                }
            }
        }
    } else {
        assert(q[0] == n);
    }
}

/// Peers come in the order of their names, and no name comes twice.
pub proof fn peers_have_one_name_each(entries: Seq<Seq<char>>)
    ensures
        peers_of(entries) matches Ok(nodes) ==> names_ordered(nodes),
    decreases entries.len(),
{
    if entries.len() > 0 {
        peers_have_one_name_each(entries.drop_last());
        if let Ok(nodes) = peers_of(entries.drop_last()) {
            if let Ok(n) = peer_of(text::trimmed(entries.last())) {
                lemma_with_node(nodes, n);
            }
        }
    }
}

// -------------------------------------------------------------------- discovery

/// The nodes of a role.
pub open spec fn of_role(nodes: Seq<NodeView>, role: Role) -> Seq<NodeView>
    decreases nodes.len(),
{
    if nodes.len() == 0 {
        Seq::empty()
    } else {
        let p = of_role(nodes.drop_last(), role);
        if nodes.last().role == role {
            p.push(nodes.last())
        } else {
            p
        }
    }
}

fn pick_role(nodes: &Vec<NodeInfo>, role: Role) -> (r: Vec<NodeInfo>)
    ensures
        node_views(r@) == of_role(node_views(nodes@), role),
{
    let ghost all = node_views(nodes@);
    let mut r: Vec<NodeInfo> = Vec::new();
    let mut i: usize = 0;
    assert(all.take(0) =~= Seq::empty());
    assert(node_views(r@) =~= Seq::empty());
    while i < nodes.len()
        invariant
            i <= nodes.len(),
            all == node_views(nodes@),
            node_views(r@) == of_role(all.take(i as int), role),
        decreases nodes.len() - i,
    {
        assert(all.take(i + 1).drop_last() =~= all.take(i as int));
        assert(all[i as int] == nodes@[i as int]@);
        let ghost done = node_views(r@);
        if nodes[i].role == role {
            r.push(nodes[i].copy());
            assert(node_views(r@) =~= done.push(nodes@[i as int]@));
        }
        i += 1;
    }
    assert(all.take(all.len() as int) =~= all);
    r
}

/// Where the nodes of a cluster are known from: who this node is, and who the
/// others are. What it says steers where requests go; nothing is written by it.
pub trait Discovery {
    /// This node.
    spec fn me(&self) -> NodeView;

    /// The other nodes.
    spec fn others(&self) -> Seq<NodeView>;

    /// This node.
    fn this_node(&self) -> (r: &NodeInfo)
        ensures
            r@ == self.me(),
    ;

    /// The other nodes.
    fn peers(&self) -> (r: Vec<NodeInfo>)
        ensures
            node_views(r@) == self.others(),
    ;

    /// The other nodes of a role.
    fn peers_with_role(&self, role: Role) -> (r: Vec<NodeInfo>)
        ensures
            node_views(r@) == of_role(self.others(), role),
    {
        pick_role(&self.peers(), role)
    }
}

/// Nodes that are known from the configuration.
pub struct StaticDiscovery {
    pub this: NodeInfo,
    pub peers: Vec<NodeInfo>,
}

impl StaticDiscovery {
    /// Nodes that are known from the start.
    pub fn new(this: NodeInfo, peers: Vec<NodeInfo>) -> (r: StaticDiscovery)
        ensures
            r.this == this,
            r.peers == peers,
    {
        StaticDiscovery { this, peers }
    }

    /// Nodes from the values of a configuration: this node's name if it has
    /// one, its addresses, and the list of its peers.
    pub fn from_settings(
        role: Role,
        id: Option<String>,
        address: Option<String>,
        data_address: Option<String>,
        peers: Option<String>,
    ) -> (r: Result<StaticDiscovery, ClusterError>)
        ensures
            match (
                r,
                match peers {
                    Some(p) => peers_of(text::split_on(p@, ',')),
                    None => Ok(Seq::empty()),
                },
            ) {
                (Ok(d), Ok(v)) => {
                    &&& d.me() == (NodeView {
                        id: match id {
                            Some(s) => s@,
                            None => "node-local"@,
                        },
                        role,
                        address: match address {
                            Some(s) => s@,
                            None => Seq::empty(),
                        },
                        data_address: match data_address {
                            Some(s) => s@,
                            None => Seq::empty(),
                        },
                    })
                    &&& d.others() == v
                },
                (Err(e), Err(f)) => says(e, f),
                _ => false,
            },
    {
        let nodes = match peers {
            Some(p) => match parse_peers(p.as_str()) {
                Ok(n) => n,
                Err(e) => {
                    return Err(e);
                },
            },
            None => Vec::new(),
        };
        assert(peers is None ==> node_views(nodes@) =~= Seq::empty());
        let id = match id {
            Some(s) => s,
            None => "node-local".to_owned(),
        };
        let address = or_empty(address);
        let data_address = or_empty(data_address);
        Ok(StaticDiscovery::new(NodeInfo { id, role, address, data_address }, nodes))
    }
}

fn or_empty(s: Option<String>) -> (r: String)
    ensures
        r@ == (match s {
            Some(t) => t@,
            None => Seq::<char>::empty(),
        }),
{
    match s {
        Some(t) => t,
        None => {
            let none = String::new();
            assert(none@ =~= Seq::empty());
            none
        },
    }
}

impl Discovery for StaticDiscovery {
    open spec fn me(&self) -> NodeView {
        self.this@
    }

    open spec fn others(&self) -> Seq<NodeView> {
        node_views(self.peers@)
    }

    fn this_node(&self) -> (r: &NodeInfo) {
        &self.this
    }

    fn peers(&self) -> (r: Vec<NodeInfo>) {
        copy_nodes(&self.peers)
    }
}

/// A peer that is written as its name, an equals sign, its role, an at sign and
/// its address, and behind a bar its address for data or none, reads as that
/// node; its role may be in capitals.
pub proof fn a_written_peer_is_read(
    id: Seq<char>,
    role: Seq<char>,
    r: Role,
    address: Seq<char>,
    data: Seq<char>,
)
    requires
        !id.contains('='),
        !role.contains('@'),
        !address.contains('|'),
        text::trimmed(id) == id,
        text::trimmed(address) == address,
        text::trimmed(data) == data,
        id.len() > 0,
        address.len() > 0,
        role_named(role) == Some(r),
    ensures
        peer_of(id + seq!['='] + (role + seq!['@'] + address)) == Ok::<NodeView, PeerFault>(
            NodeView { id, role: r, address, data_address: Seq::empty() },
        ),
        peer_of(id + seq!['='] + (role + seq!['@'] + (address + seq!['|'] + data))) == Ok::<
            NodeView,
            PeerFault,
        >(NodeView { id, role: r, address, data_address: data }),
{
    let far = address + seq!['|'] + data;
    text::a_text_is_cut_at_the_first(id, '=', role + seq!['@'] + address);
    text::a_text_is_cut_at_the_first(id, '=', role + seq!['@'] + far);
    text::a_text_is_cut_at_the_first(role, '@', address);
    text::a_text_is_cut_at_the_first(role, '@', far);
    text::a_text_is_cut_at_the_first(address, '|', data);
}

/// Only the words of the roles are roles, with white space around them or none
/// and in capitals or not; nothing at all is the role of doing everything.
pub proof fn only_role_words_are_roles(s: Seq<char>)
    ensures
        role_named(s) matches Some(r) ==> text::lowered(text::trimmed(s)) == role_text(r) || r
            == Role::All && text::trimmed(s).len() == 0,
{
}

/// The nodes of a role are those of all that have it, in their order.
pub proof fn nodes_are_found_by_their_role(nodes: Seq<NodeView>, role: Role)
    ensures
        of_role(nodes, role) == nodes.filter(|n: NodeView| n.role == role),
    decreases nodes.len(),
{
    reveal(Seq::filter);
    if nodes.len() > 0 {
        nodes_are_found_by_their_role(nodes.drop_last(), role);
    }
}

/// A node that is put among others is among them, and takes the place of
/// the one of its name alone.
pub proof fn a_node_replaces_its_namesake(nodes: Seq<NodeView>, n: NodeView, x: NodeView)
    requires
        names_ordered(nodes),
    ensures
        with_node(nodes, n).contains(x) <==> x == n || nodes.contains(x) && x.id != n.id,
    decreases nodes.len(),
{
    let now = with_node(nodes, n);
    if nodes.len() > 0 {
        let init = nodes.drop_last();
        let last = nodes.last();
        assert forall|i: int, j: int| 0 <= i < j < init.len() implies text::before(
            (#[trigger] init[i]).id,
            (#[trigger] init[j]).id,
        ) by {
            assert(text::before(nodes[i].id, nodes[j].id));
        }
        assert(nodes =~= init.push(last));
        assert forall|k: int| 0 <= k < init.len() implies (#[trigger] init[k]).id != last.id by {
            assert(text::before(nodes[k].id, nodes[nodes.len() - 1].id));
            text::before_is_total(nodes[k].id, last.id);
        }
        text::before_is_total(last.id, n.id);
        assert(nodes.contains(x) <==> init.contains(x) || x == last) by {
            if init.contains(x) {
                let k = choose|k: int| 0 <= k < init.len() && init[k] == x;
                assert(nodes[k] == x);
            }
            if nodes.contains(x) {
                let k = choose|k: int| 0 <= k < nodes.len() && nodes[k] == x;
                if k < init.len() {
                    assert(init[k] == x);
                }
            }
            assert(nodes[nodes.len() - 1] == last);
        }
        if text::before(last.id, n.id) {
            assert(now =~= nodes.push(n));
            assert(now.contains(x) <==> nodes.contains(x) || x == n) by {
                if nodes.contains(x) {
                    let k = choose|k: int| 0 <= k < nodes.len() && nodes[k] == x;
                    assert(now[k] == x);
                }
                assert(now[nodes.len() as int] == n);
                if now.contains(x) {
                    let k = choose|k: int| 0 <= k < now.len() && now[k] == x;
                    if k < nodes.len() {
                        assert(nodes[k] == x);
                    }
                }
            }
            if nodes.contains(x) {
                let k = choose|k: int| 0 <= k < nodes.len() && nodes[k] == x;
                if k < init.len() {
                    assert(text::before(nodes[k].id, nodes[nodes.len() - 1].id));
                    text::before_is_transitive(x.id, last.id, n.id);
                }
                text::before_is_total(x.id, n.id);
            }
        } else if last.id == n.id {
            assert(now.contains(x) <==> init.contains(x) || x == n) by {
                if init.contains(x) {
                    let k = choose|k: int| 0 <= k < init.len() && init[k] == x;
                    assert(now[k] == x);
                }
                assert(now[init.len() as int] == n);
                if now.contains(x) {
                    let k = choose|k: int| 0 <= k < now.len() && now[k] == x;
                    if k < init.len() {
                        assert(init[k] == x);
                    }
                }
            }
            if init.contains(x) {
                let k = choose|k: int| 0 <= k < init.len() && init[k] == x;
                assert(init[k].id != last.id);
            }
        } else {
            a_node_replaces_its_namesake(init, n, x);
            let p = with_node(init, n);
            assert(now.contains(x) <==> p.contains(x) || x == last) by {
                if p.contains(x) {
                    let k = choose|k: int| 0 <= k < p.len() && p[k] == x;
                    assert(now[k] == x);
                }
                assert(now[p.len() as int] == last);
                if now.contains(x) {
                    let k = choose|k: int| 0 <= k < now.len() && now[k] == x;
                    if k < p.len() {
                        assert(p[k] == x);
                    }
                }
            }
        }
    } else {
        assert(now[0] == n);
    }
}

} // verus!
