use vstd::prelude::*;

use crate::msgs::{
    NodeConnected, NodeSupportedTypes, RegisterRecipient, TypeSupported, WorkerDisconnected,
};

verus! {

/// The characters of each string, in order.
pub open spec fn strs(v: Seq<String>) -> Seq<Seq<char>> {
    v.map_values(|s: String| s@)
}

/// The characters of each pair of strings, in order.
pub open spec fn pairs(v: Seq<(String, String)>) -> Seq<(Seq<char>, Seq<char>)> {
    v.map_values(|p: (String, String)| (p.0@, p.1@))
}

/// The `(type id, node)` pairs declared by one announcement of `node`.
pub open spec fn announced(node: Seq<char>, types: Seq<Seq<char>>) -> Set<(Seq<char>, Seq<char>)> {
    Set::new(|p: (Seq<char>, Seq<char>)| p.1 == node && types.contains(p.0))
}

/// Shutdown state of the coordinator.
#[derive(Clone, Copy, Debug, PartialEq, Eq, Structural)]
pub enum Phase {
    Running,
    Draining,
    Terminating,
}

/// Operating-system signals as they reach the coordinator.
#[derive(Clone, Copy, Debug, PartialEq, Eq, Structural)]
pub enum Signal {
    Hup,
    Int,
    Term,
    Quit,
    Child,
}

/// What a node event asks of the embedding program.
#[derive(Debug)]
pub enum NodeAction {
    /// Start a supervised connection actor for this node identity.
    Spawn(String),
    /// Send `ReconnectNode` to the actor already held for this identity.
    Reconnect(String),
}

impl View for NodeAction {
    /// Whether a new link is started, and for which identity.
    type V = (bool, Seq<char>);

    open spec fn view(&self) -> (bool, Seq<char>) {
        match self {
            NodeAction::Spawn(n) => (true, n@),
            NodeAction::Reconnect(n) => (false, n@),
        }
    }
}

/// What `start` asks of the embedding program.
pub struct Startup {
    /// Local addresses of the listeners to activate.
    pub listeners: Vec<String>,
    /// One action for each configured node, in order of registration.
    pub nodes: Vec<NodeAction>,
}

/// Why `bind` failed.
#[derive(Debug, PartialEq, Eq)]
pub enum BindError {
    /// No address could be bound; this is the error of the last attempt.
    Failed(String),
    /// There was no address to bind.
    NoAddress,
}

/// Whether some attempt bound a listener.
pub open spec fn any_bound(a: Seq<Result<String, String>>) -> bool {
    exists|i: int| 0 <= i < a.len() && a[i] is Ok
}

/// Local addresses of the listeners that the attempts bound.
pub open spec fn bound(a: Seq<Result<String, String>>) -> Set<Seq<char>> {
    Set::new(|x: Seq<char>| exists|i: int| 0 <= i < a.len() && a[i] is Ok && a[i]->Ok_0@ == x)
}

/// What a termination signal asks of the embedding program.
#[derive(Debug)]
pub enum Shutdown {
    /// Nothing: the signal is not a termination signal, or shutdown is under way.
    Ignore,
    /// Send `StopWorker` to each of these workers.
    StopWorkers(Vec<usize>),
    /// Exit with status 0 after the grace delay.
    ExitAfterDelay,
}

/// Why a recipient cannot be handed out.
#[derive(Clone, Copy, Debug, PartialEq, Eq, Structural)]
pub enum RecipientError {
    /// The proxy held for this type id was made for a message type of another name.
    TypeMismatch,
}

/// The proxy handed out by `get_recipient`.
#[derive(Clone, Copy, Debug, PartialEq, Eq, Structural)]
pub struct ProxySlot {
    /// Index of the routing proxy, stable for the life of the coordinator.
    pub id: usize,
    /// Whether the proxy was made by this call and must be started.
    pub created: bool,
}

/// Mathematical model of the coordinator.
#[verifier::ext_equal]
pub struct WorldView {
    /// Identity of the local process.
    pub addr: Seq<char>,
    /// Configured node identities, in order of registration.
    pub addrs: Seq<Seq<char>>,
    /// Identities that have a live node link.
    pub nodes: Set<Seq<char>>,
    /// `(type id, node)` pairs: the node supports the type.
    pub types: Set<(Seq<char>, Seq<char>)>,
    /// Local addresses of bound, not yet activated listeners.
    pub sockets: Set<Seq<char>>,
    /// Whether `start` has run.
    pub started: bool,
    /// The last connection id handed out (0: none yet).
    pub wid: usize,
    /// Connection ids of the registered inbound workers, in increasing order.
    pub workers: Seq<usize>,
    /// Type ids with a published local handler.
    pub handlers: Set<Seq<char>>,
    /// Routing proxies by index: `(type id, message type name)`.
    pub recipients: Seq<(Seq<char>, Seq<char>)>,
    pub phase: Phase,
}

impl WorldView {
    pub open spec fn initial(addr: Seq<char>) -> WorldView {
        WorldView {
            addr,
            addrs: Seq::empty(),
            nodes: Set::empty(),
            types: Set::empty(),
            sockets: Set::empty(),
            started: false,
            wid: 0,
            workers: Seq::empty(),
            handlers: Set::empty(),
            recipients: Seq::empty(),
            phase: Phase::Running,
        }
    }

    pub open spec fn wf(self) -> bool {
        &&& self.addrs.no_duplicates()
        &&& self.recipients.len() <= usize::MAX
        &&& forall|i: int, j: int|
            0 <= i < j < self.recipients.len() ==> self.recipients[i].0 != self.recipients[j].0
        &&& forall|i: int, j: int|
            0 <= i < j < self.workers.len() ==> self.workers[i] < self.workers[j]
        &&& forall|i: int| 0 <= i < self.workers.len() ==> 1 <= #[trigger] self.workers[i] <= self.wid
        &&& self.phase == Phase::Draining ==> self.workers.len() > 0
        &&& self.phase == Phase::Terminating ==> self.workers.len() == 0
    }

    // ---- configured nodes

    pub open spec fn with_node(self, n: Seq<char>) -> WorldView {
        if self.addrs.contains(n) {
            self
        } else {
            WorldView { addrs: self.addrs.push(n), ..self }
        }
    }

    // ---- node links

    /// Whether a `NodeConnected(n)` starts a new link (otherwise it reconnects).
    pub open spec fn spawns(self, n: Seq<char>) -> bool {
        !self.nodes.contains(n)
    }

    pub open spec fn connect(self, n: Seq<char>) -> WorldView {
        WorldView { nodes: self.nodes.insert(n), ..self }
    }

    // ---- supported types

    pub open spec fn announce(self, n: Seq<char>, ts: Seq<Seq<char>>) -> WorldView {
        WorldView { types: self.types.union(announced(n, ts)), ..self }
    }

    /// The nodes known to support type `t`.
    pub open spec fn supporters(self, t: Seq<char>) -> Set<Seq<char>> {
        Set::new(|n: Seq<char>| self.types.contains((t, n)))
    }

    /// Index of the routing proxy of type `t`, if there is one.
    pub open spec fn proxy_of(self, t: Seq<char>) -> Option<nat> {
        if exists|i: int| 0 <= i < self.recipients.len() && self.recipients[i].0 == t {
            Some((choose|i: int| 0 <= i < self.recipients.len() && self.recipients[i].0 == t) as nat)
        } else {
            None
        }
    }

    /// Notifications that an announcement of `ts` by `n` sends: one for each
    /// announced type, in order, that has a proxy, provided `n` has a link.
    pub open spec fn notices(self, n: Seq<char>, ts: Seq<Seq<char>>) -> Seq<(nat, Seq<char>, Seq<char>)>
        decreases ts.len(),
    {
        if ts.len() == 0 || !self.nodes.contains(n) {
            Seq::empty()
        } else {
            let prev = self.notices(n, ts.drop_last());
            match self.proxy_of(ts.last()) {
                Some(p) => prev.push((p, ts.last(), n)),
                None => prev,
            }
        }
    }

    // ---- recipients

    /// What `get_recipient(t, name)` hands out.
    pub open spec fn recipient(self, t: Seq<char>, name: Seq<char>) -> Result<ProxySlot, RecipientError> {
        match self.proxy_of(t) {
            Some(p) => if self.recipients[p as int].1 == name {
                Ok(ProxySlot { id: p as usize, created: false })
            } else {
                Err(RecipientError::TypeMismatch)
            },
            None => Ok(ProxySlot { id: self.recipients.len() as usize, created: true }),
        }
    }

    pub open spec fn with_recipient(self, t: Seq<char>, name: Seq<char>) -> WorldView {
        match self.proxy_of(t) {
            Some(p) => self,
            None => WorldView { recipients: self.recipients.push((t, name)), ..self },
        }
    }

    pub open spec fn with_handler(self, t: Seq<char>) -> WorldView {
        WorldView { handlers: self.handlers.insert(t), ..self }
    }

    // ---- inbound workers

    /// Whether an inbound connection is taken: not once terminating, and not
    /// once the connection ids are used up.
    pub open spec fn accepts(self) -> bool {
        self.phase != Phase::Terminating && self.wid < usize::MAX
    }

    pub open spec fn accept(self) -> WorldView {
        if self.accepts() {
            WorldView {
                wid: (self.wid + 1) as usize,
                workers: self.workers.push((self.wid + 1) as usize),
                ..self
            }
        } else {
            self
        }
    }

    /// The workers without `id`.
    pub open spec fn without_worker(self, id: usize) -> Seq<usize> {
        if self.workers.contains(id) {
            self.workers.remove(choose|i: int| 0 <= i < self.workers.len() && self.workers[i] == id)
        } else {
            self.workers
        }
    }

    pub open spec fn disconnect(self, id: usize) -> WorldView {
        let rest = self.without_worker(id);
        WorldView {
            workers: rest,
            phase: if self.phase == Phase::Draining && rest.len() == 0 {
                Phase::Terminating
            } else {
                self.phase
            },
            ..self
        }
    }

    // ---- shutdown

    /// Whether `sig` sets shutdown off.
    pub open spec fn stops(self, sig: Signal) -> bool {
        (sig == Signal::Int || sig == Signal::Term || sig == Signal::Quit) && self.phase
            == Phase::Running
    }

    pub open spec fn signal(self, sig: Signal) -> WorldView {
        if self.stops(sig) {
            WorldView {
                phase: if self.workers.len() == 0 {
                    Phase::Terminating
                } else {
                    Phase::Draining
                },
                ..self
            }
        } else {
            self
        }
    }

    // ---- listeners

    pub open spec fn bind(self, a: Seq<Result<String, String>>) -> WorldView {
        WorldView { sockets: self.sockets.union(bound(a)), ..self }
    }

    // ---- start

    pub open spec fn start(self) -> WorldView {
        WorldView {
            started: true,
            sockets: Set::empty(),
            nodes: self.nodes.union(self.addrs.to_set()),
            ..self
        }
    }
}

/// The coordinator's registries.
pub struct World {
    addr: String,
    addrs: Vec<String>,
    nodes: Vec<String>,
    types: Vec<(String, String)>,
    sockets: Vec<String>,
    started: bool,
    wid: usize,
    workers: Vec<usize>,
    handlers: Vec<String>,
    recipients: Vec<(String, String)>,
    phase: Phase,
}

impl View for World {
    type V = WorldView;

    closed spec fn view(&self) -> WorldView {
        WorldView {
            addr: self.addr@,
            addrs: strs(self.addrs@),
            nodes: strs(self.nodes@).to_set(),
            types: pairs(self.types@).to_set(),
            sockets: strs(self.sockets@).to_set(),
            started: self.started,
            wid: self.wid,
            workers: self.workers@,
            handlers: strs(self.handlers@).to_set(),
            recipients: pairs(self.recipients@),
            phase: self.phase,
        }
    }
}

/// Index of `s` in `v`, if it is there.
fn find_str(v: &Vec<String>, s: &String) -> (r: Option<usize>)
    ensures
        match r {
            Some(i) => i < v.len() && v@[i as int]@ == s@,
            None => !strs(v@).contains(s@),
        },
        r.is_some() == strs(v@).contains(s@),
{
    let mut i: usize = 0;
    while i < v.len()
        invariant
            i <= v.len(),
            forall|j: int| 0 <= j < i ==> v@[j]@ != s@,
        decreases v.len() - i,
    {
        if v[i] == *s {
            assert(strs(v@)[i as int] == s@);
            return Some(i);
        }
        i = i + 1;
    }
    assert(forall|j: int| 0 <= j < v.len() ==> strs(v@)[j] != s@);
    None
}

/// Inserts `s` into `v` unless it is there already.
fn insert_str(v: &mut Vec<String>, s: &String)
    ensures
        strs(final(v)@).to_set() == strs(old(v)@).to_set().insert(s@),
        strs(old(v)@).contains(s@) ==> final(v)@ == old(v)@,
        !strs(old(v)@).contains(s@) ==> strs(final(v)@) == strs(old(v)@).push(s@),
{
    proof {
        broadcast use vstd::seq_lib::group_seq_properties;
    }
    match find_str(v, s) {
        Some(i) => {
            assert(strs(old(v)@)[i as int] == s@);
            assert(strs(v@).to_set() =~= strs(v@).to_set().insert(s@));
        },
        None => {
            v.push(s.clone());
            assert(strs(v@) =~= strs(old(v)@).push(s@));
        },
    }
}

/// Index of the pair whose first string is `t`, if there is one.
fn find_first(v: &Vec<(String, String)>, t: &String) -> (r: Option<usize>)
    ensures
        match r {
            Some(i) => i < v.len() && v@[i as int].0@ == t@,
            None => forall|j: int| 0 <= j < v.len() ==> v@[j].0@ != t@,
        },
{
    let mut i: usize = 0;
    while i < v.len()
        invariant
            i <= v.len(),
            forall|j: int| 0 <= j < i ==> v@[j].0@ != t@,
        decreases v.len() - i,
    {
        if v[i].0 == *t {
            return Some(i);
        }
        i = i + 1;
    }
    None
}

/// Index of `id` in `v`, if it is there.
fn find_worker(v: &Vec<usize>, id: usize) -> (r: Option<usize>)
    ensures
        match r {
            Some(i) => i < v.len() && v@[i as int] == id,
            None => !v@.contains(id),
        },
{
    let mut i: usize = 0;
    while i < v.len()
        invariant
            i <= v.len(),
            forall|j: int| 0 <= j < i ==> v@[j] != id,
        decreases v.len() - i,
    {
        if v[i] == id {
            return Some(i);
        }
        i = i + 1;
    }
    None
}

/// Whether the pair `(a, b)` is in `v`.
fn has_pair(v: &Vec<(String, String)>, a: &String, b: &String) -> (r: bool)
    ensures
        r == pairs(v@).contains((a@, b@)),
{
    let mut i: usize = 0;
    while i < v.len()
        invariant
            i <= v.len(),
            forall|j: int| 0 <= j < i ==> pairs(v@)[j] != (a@, b@),
        decreases v.len() - i,
    {
        if v[i].0 == *a && v[i].1 == *b {
            assert(pairs(v@)[i as int] == (a@, b@));
            return true;
        }
        i = i + 1;
    }
    false
}

proof fn lemma_take_contains<A>(s: Seq<A>, i: int, x: A)
    requires
        0 <= i < s.len(),
    ensures
        s.take(i + 1).contains(x) == (s.take(i).contains(x) || x == s[i]),
{
    if s.take(i + 1).contains(x) {
        let j = choose|j: int| 0 <= j < i + 1 && #[trigger] s.take(i + 1)[j] == x;
        if j < i {
            assert(s.take(i)[j] == x);
        }
    }
    if s.take(i).contains(x) {
        let j = choose|j: int| 0 <= j < i && #[trigger] s.take(i)[j] == x;
        assert(s.take(i + 1)[j] == x);
    }
    if x == s[i] {
        assert(s.take(i + 1)[i] == x);
    }
}

/// Adds the pairs `(t, node)` for each `t` in `ts`.
fn add_pairs(v: &mut Vec<(String, String)>, node: &String, ts: &Vec<String>)
    ensures
        pairs(final(v)@).to_set() == pairs(old(v)@).to_set().union(announced(node@, strs(ts@))),
{
    proof {
        broadcast use vstd::seq_lib::group_seq_properties;
    }
    let mut i: usize = 0;
    while i < ts.len()
        invariant
            i <= ts.len(),
            pairs(v@).to_set() == pairs(old(v)@).to_set().union(
                announced(node@, strs(ts@).take(i as int)),
            ),
        decreases ts.len() - i,
    {
        let ghost before = pairs(v@).to_set();
        let t = &ts[i];
        if !has_pair(v, t, node) {
            let ghost pv = pairs(v@);
            v.push((t.clone(), node.clone()));
            assert(pairs(v@) =~= pv.push((t@, node@)));
            proof {
                pv.lemma_push_to_set_commute((t@, node@));
            }
        } else {
            assert(pairs(v@).to_set().contains((t@, node@)));
        }
        assert(pairs(v@).to_set() =~= before.insert((t@, node@)));
        assert forall|x: Seq<char>| #[trigger] strs(ts@).take(i + 1).contains(x) == (strs(ts@).take(
            i as int,
        ).contains(x) || x == t@) by {
            lemma_take_contains(strs(ts@), i as int, x);
        }
        assert(announced(node@, strs(ts@).take(i + 1)) =~= announced(
            node@,
            strs(ts@).take(i as int),
        ).insert((t@, node@)));
        i = i + 1;
        assert(pairs(v@).to_set() =~= pairs(old(v)@).to_set().union(
            announced(node@, strs(ts@).take(i as int)),
        ));
    }
    assert(strs(ts@).take(ts.len() as int) =~= strs(ts@));
}

/// Connects each configured identity: a new link for those without one.
fn connect_all(nodes: &mut Vec<String>, addrs: &Vec<String>) -> (r: Vec<NodeAction>)
    requires
        strs(addrs@).no_duplicates(),
    ensures
        strs(final(nodes)@).to_set() == strs(old(nodes)@).to_set().union(strs(addrs@).to_set()),
        r.len() == addrs.len(),
        forall|i: int|
            0 <= i < r.len() ==> #[trigger] r@[i]@ == (
                !strs(old(nodes)@).to_set().contains(addrs@[i]@),
                addrs@[i]@,
            ),
{
    proof {
        broadcast use vstd::seq_lib::group_seq_properties;
    }
    let mut out: Vec<NodeAction> = Vec::new();
    let mut i: usize = 0;
    while i < addrs.len()
        invariant
            i <= addrs.len(),
            out.len() == i,
            strs(addrs@).no_duplicates(),
            strs(nodes@).to_set() == strs(old(nodes)@).to_set().union(
                strs(addrs@).take(i as int).to_set(),
            ),
            forall|j: int|
                0 <= j < i ==> #[trigger] out@[j]@ == (
                    !strs(old(nodes)@).to_set().contains(addrs@[j]@),
                    addrs@[j]@,
                ),
        decreases addrs.len() - i,
    {
        let a = &addrs[i];
        assert(!strs(addrs@).take(i as int).contains(a@)) by {
            assert forall|j: int| 0 <= j < i implies strs(addrs@).take(i as int)[j] != a@ by {
                assert(strs(addrs@)[j] != strs(addrs@)[i as int]);
            }
        }
        let known = find_str(nodes, a).is_some();
        assert(strs(nodes@).to_set().contains(a@) == strs(nodes@).contains(a@));
        assert(!strs(addrs@).take(i as int).to_set().contains(a@));
        assert(known == strs(old(nodes)@).to_set().contains(a@));
        insert_str(nodes, a);
        if known {
            out.push(NodeAction::Reconnect(a.clone()));
        } else {
            out.push(NodeAction::Spawn(a.clone()));
        }
        assert forall|x: Seq<char>| #[trigger] strs(addrs@).take(i + 1).contains(x) == (strs(
            addrs@,
        ).take(i as int).contains(x) || x == a@) by {
            lemma_take_contains(strs(addrs@), i as int, x);
        }
        assert(strs(addrs@).take(i + 1).to_set() =~= strs(addrs@).take(i as int).to_set().insert(
            a@,
        ));
        i = i + 1;
        assert(strs(nodes@).to_set() =~= strs(old(nodes)@).to_set().union(
            strs(addrs@).take(i as int).to_set(),
        ));
    }
    assert(strs(addrs@).take(addrs.len() as int) =~= strs(addrs@));
    out
}

impl World {
    pub closed spec fn inv(&self) -> bool {
        self@.wf()
    }

    /// A coordinator for the local identity `addr`, with empty registries.
    pub fn new(addr: String) -> (r: World)
        ensures
            r.inv(),
            r@ == WorldView::initial(addr@),
    {
        let r = World {
            addr,
            addrs: Vec::new(),
            nodes: Vec::new(),
            types: Vec::new(),
            sockets: Vec::new(),
            started: false,
            wid: 0,
            workers: Vec::new(),
            handlers: Vec::new(),
            recipients: Vec::new(),
            phase: Phase::Running,
        };
        assert(r@.nodes =~= Set::empty());
        assert(r@.types =~= Set::empty());
        assert(r@.sockets =~= Set::empty());
        assert(r@.handlers =~= Set::empty());
        assert(r@.addrs =~= Seq::empty());
        assert(r@.recipients =~= Seq::empty());
        r
    }

    /// Registers a configured node, if one is given.
    pub fn add_node(self, addr: Option<String>) -> (r: World)
        requires
            self.inv(),
        ensures
            r.inv(),
            r@ == match addr {
                Some(a) => self@.with_node(a@),
                None => self@,
            },
    {
        let mut w = self;
        if let Some(a) = addr {
            insert_str(&mut w.addrs, &a);
            proof {
                broadcast use vstd::seq_lib::group_seq_properties;
            }
            assert(w@ =~= self@.with_node(a@));
        }
        w
    }

    /// Handles `NodeConnected`: a known identity is told to reconnect, an
    /// unknown one gets a new link.
    pub fn node_connected(&mut self, msg: NodeConnected) -> (r: NodeAction)
        requires
            old(self).inv(),
        ensures
            final(self).inv(),
            final(self)@ == old(self)@.connect(msg.0@),
            r@ == (old(self)@.spawns(msg.0@), msg.0@),
    {
        let id = msg.0;
        let known = find_str(&self.nodes, &id).is_some();
        insert_str(&mut self.nodes, &id);
        assert(self@ =~= old(self)@.connect(id@));
        if known {
            NodeAction::Reconnect(id)
        } else {
            NodeAction::Spawn(id)
        }
    }

    /// Records the listeners that a round of bind attempts produced, one
    /// attempt for each address that the specifier resolved to: `Ok` with the
    /// listener's local address, or `Err` with the failure. Some success
    /// suffices; with none, the error of the last attempt comes back.
    pub fn bind(self, attempts: Vec<Result<String, String>>) -> (r: Result<World, BindError>)
        requires
            self.inv(),
        ensures
            match r {
                Ok(w) => any_bound(attempts@) && w.inv() && w@ == self@.bind(attempts@),
                Err(BindError::Failed(e)) => !any_bound(attempts@) && attempts.len() > 0
                    && attempts@.last() == Err::<String, String>(e),
                Err(BindError::NoAddress) => attempts.len() == 0,
            },
    {
        let mut w = self;
        let mut succ = false;
        let mut err: Option<String> = None;
        let mut i: usize = 0;
        assert(bound(attempts@.take(0)) =~= Set::empty());
        assert(self@.bind(attempts@.take(0)) =~= self@);
        while i < attempts.len()
            invariant
                i <= attempts.len(),
                self@.wf(),
                w.inv(),
                w@ == self@.bind(attempts@.take(i as int)),
                succ == any_bound(attempts@.take(i as int)),
                err is Some ==> i > 0,
                i > 0 && attempts@[i - 1] is Err ==> err == Some(attempts@[i - 1]->Err_0),
            decreases attempts.len() - i,
        {
            let ghost a = attempts@;
            match &attempts[i] {
                Ok(l) => {
                    insert_str(&mut w.sockets, l);
                    succ = true;
                    assert(a.take(i + 1)[i as int] is Ok);
                },
                Err(e) => {
                    err = Some(e.clone());
                },
            }
            assert(bound(a.take(i + 1)) =~= if a[i as int] is Ok {
                bound(a.take(i as int)).insert(a[i as int]->Ok_0@)
            } else {
                bound(a.take(i as int))
            }) by {
                assert forall|x: Seq<char>| #[trigger] bound(a.take(i + 1)).contains(x) implies (if a[i as int] is Ok {
                    bound(a.take(i as int)).insert(a[i as int]->Ok_0@)
                } else {
                    bound(a.take(i as int))
                }).contains(x) by {
                    let j = choose|j: int| 0 <= j < i + 1 && #[trigger] a.take(i + 1)[j] is Ok && a.take(i + 1)[j]->Ok_0@ == x;
                    if j < i {
                        assert(a.take(i as int)[j] == a[j]);
                    }
                }
                assert forall|x: Seq<char>| #[trigger] bound(a.take(i as int)).contains(x) implies bound(a.take(i + 1)).contains(x) by {
                    let j = choose|j: int| 0 <= j < i && #[trigger] a.take(i as int)[j] is Ok && a.take(i as int)[j]->Ok_0@ == x;
                    assert(a.take(i + 1)[j] == a[j]);
                }
                if a[i as int] is Ok {
                    assert(a.take(i + 1)[i as int] == a[i as int]);
                }
            }
            assert(any_bound(a.take(i + 1)) == (any_bound(a.take(i as int)) || a[i as int] is Ok)) by {
                if any_bound(a.take(i as int)) {
                    let j = choose|j: int| 0 <= j < i && #[trigger] a.take(i as int)[j] is Ok;
                    assert(a.take(i + 1)[j] == a[j]);
                }
                if any_bound(a.take(i + 1)) {
                    let j = choose|j: int| 0 <= j < i + 1 && #[trigger] a.take(i + 1)[j] is Ok;
                    if j < i {
                        assert(a.take(i as int)[j] == a[j]);
                    }
                }
                assert(a.take(i + 1)[i as int] == a[i as int]);
            }
            i = i + 1;
            assert(w@ =~= self@.bind(a.take(i as int)));
        }
        assert(attempts@.take(attempts.len() as int) =~= attempts@);
        assert(w@ == self@.bind(attempts@));
        assert(succ == any_bound(attempts@));
        if succ {
            return Ok(w);
        }
        if attempts.len() > 0 {
            let ghost k = attempts.len() - 1;
            assert(!(attempts@[k] is Ok));
        }
        match err {
            Some(e) => Err(BindError::Failed(e)),
            None => Err(BindError::NoAddress),
        }
    }

    /// Hands out the routing proxy for message type `type_id`, whose Rust
    /// type is named `rust_name`. The first call for a type id makes the
    /// proxy; later calls with the same name get the same one, and a call
    /// with another name for a type id already held is refused.
    pub fn get_recipient(&mut self, type_id: String, rust_name: String) -> (r: Result<
        ProxySlot,
        RecipientError,
    >)
        requires
            old(self).inv(),
        ensures
            final(self).inv(),
            r == old(self)@.recipient(type_id@, rust_name@),
            final(self)@ == old(self)@.with_recipient(type_id@, rust_name@),
    {
        match find_first(&self.recipients, &type_id) {
            Some(i) => {
                assert(pairs(self.recipients@)[i as int].0 == type_id@);
                assert(self@.proxy_of(type_id@) == Some(i as nat));
                if self.recipients[i].1 == rust_name {
                    Ok(ProxySlot { id: i, created: false })
                } else {
                    Err(RecipientError::TypeMismatch)
                }
            },
            None => {
                let id = self.recipients.len();
                assert forall|j: int| 0 <= j < self@.recipients.len() implies self@.recipients[j].0
                    != type_id@ by {
                    assert(pairs(self.recipients@)[j].0 == self.recipients@[j].0@);
                }
                let ghost pv = pairs(self.recipients@);
                self.recipients.push((type_id, rust_name));
                assert(pairs(self.recipients@) =~= pv.push((type_id@, rust_name@)));
                assert(self.recipients@.len() == self.recipients.len());
                assert(self@ =~= old(self)@.with_recipient(type_id@, rust_name@));
                Ok(ProxySlot { id, created: true })
            },
        }
    }

    /// Publishes a local handler for a message type; the result lists the
    /// workers that must be handed it.
    pub fn register_recipient(&mut self, msg: RegisterRecipient) -> (r: Vec<usize>)
        requires
            old(self).inv(),
        ensures
            final(self).inv(),
            final(self)@ == old(self)@.with_handler(msg.0@),
            r@ == old(self)@.workers,
    {
        let r = self.workers.clone();
        assert(r@ =~= self.workers@);
        insert_str(&mut self.handlers, &msg.0);
        assert(self@ =~= old(self)@.with_handler(msg.0@));
        r
    }

    /// Registers a newly accepted inbound connection under the next
    /// connection id, which comes back; `None` when the connection is not
    /// taken.
    pub fn connection_accepted(&mut self) -> (r: Option<usize>)
        requires
            old(self).inv(),
        ensures
            final(self).inv(),
            final(self)@ == old(self)@.accept(),
            r == if old(self)@.accepts() {
                Some((old(self)@.wid + 1) as usize)
            } else {
                None::<usize>
            },
    {
        if self.phase == Phase::Terminating || self.wid == usize::MAX {
            return None;
        }
        self.wid = self.wid + 1;
        self.workers.push(self.wid);
        assert(self@ =~= old(self)@.accept());
        Some(self.wid)
    }

    /// Handles `WorkerDisconnected`: the worker leaves the registry, and when
    /// the last one leaves a drain, the result is `true`: exit is due.
    pub fn worker_disconnected(&mut self, msg: WorkerDisconnected) -> (r: bool)
        requires
            old(self).inv(),
        ensures
            final(self).inv(),
            final(self)@ == old(self)@.disconnect(msg.0),
            r == (old(self)@.phase == Phase::Draining && final(self)@.phase == Phase::Terminating),
    {
        let id = msg.0;
        let found = find_worker(&self.workers, id);
        let ghost ws = self.workers@;
        if let Some(i) = found {
            assert(ws.contains(id));
            let ghost c = choose|k: int| 0 <= k < ws.len() && ws[k] == id;
            assert(c == i) by {
                if c < i {
                    assert(ws[c] < ws[i as int]);
                } else if c > i {
                    assert(ws[i as int] < ws[c]);
                }
            }
            self.workers.remove(i);
            proof {
                ws.remove_ensures(i as int);
            }
            assert forall|a: int, b: int| 0 <= a < b < self.workers@.len() implies self.workers@[a]
                < self.workers@[b] by {
                let a2 = if a < i { a } else { a + 1 };
                let b2 = if b < i { b } else { b + 1 };
                assert(ws[a2] < ws[b2]);
            }
            assert forall|a: int| 0 <= a < self.workers@.len() implies 1 <= #[trigger] self.workers@[a]
                <= self.wid by {
                let a2 = if a < i { a } else { a + 1 };
                assert(1 <= ws[a2] <= self.wid);
            }
        } else {
            assert(!ws.contains(id));
        }
        if self.phase == Phase::Draining && self.workers.len() == 0 {
            self.phase = Phase::Terminating;
            assert(self@ =~= old(self)@.disconnect(id));
            true
        } else {
            assert(self@ =~= old(self)@.disconnect(id));
            false
        }
    }

    /// Handles a signal. Interrupt, terminate and quit start the shutdown
    /// once: with workers, each is asked to stop; without, exit is due.
    pub fn signal(&mut self, sig: Signal) -> (r: Shutdown)
        requires
            old(self).inv(),
        ensures
            final(self).inv(),
            final(self)@ == old(self)@.signal(sig),
            match r {
                Shutdown::Ignore => !old(self)@.stops(sig),
                Shutdown::StopWorkers(ws) => old(self)@.stops(sig) && old(self)@.workers.len() > 0
                    && ws@ == old(self)@.workers,
                Shutdown::ExitAfterDelay => old(self)@.stops(sig) && old(self)@.workers.len() == 0,
            },
    {
        match sig {
            Signal::Int | Signal::Term | Signal::Quit => self.stop(),
            _ => Shutdown::Ignore,
        }
    }

    fn stop(&mut self) -> (r: Shutdown)
        requires
            old(self).inv(),
        ensures
            final(self).inv(),
            final(self)@ == old(self)@.signal(Signal::Term),
            match r {
                Shutdown::Ignore => old(self)@.phase != Phase::Running,
                Shutdown::StopWorkers(ws) => old(self)@.phase == Phase::Running
                    && old(self)@.workers.len() > 0 && ws@ == old(self)@.workers,
                Shutdown::ExitAfterDelay => old(self)@.phase == Phase::Running
                    && old(self)@.workers.len() == 0,
            },
    {
        if self.phase != Phase::Running {
            return Shutdown::Ignore;
        }
        if self.workers.len() == 0 {
            self.phase = Phase::Terminating;
            assert(self@ =~= old(self)@.signal(Signal::Term));
            Shutdown::ExitAfterDelay
        } else {
            self.phase = Phase::Draining;
            let ws = self.workers.clone();
            assert(ws@ =~= self.workers@);
            assert(self@ =~= old(self)@.signal(Signal::Term));
            Shutdown::StopWorkers(ws)
        }
    }

    /// Handles `NodeSupportedTypes`: records the announced pairs and returns
    /// the `TypeSupported` notifications for the proxies of the announced
    /// types, when the node has a link.
    pub fn node_supported_types(&mut self, msg: NodeSupportedTypes) -> (r: Vec<TypeSupported>)
        requires
            old(self).inv(),
        ensures
            final(self).inv(),
            final(self)@ == old(self)@.announce(msg.node@, strs(msg.types@)),
            r@.map_values(|x: TypeSupported| x@) == old(self)@.notices(msg.node@, strs(msg.types@)),
    {
        add_pairs(&mut self.types, &msg.node, &msg.types);
        assert(self@ =~= old(self)@.announce(msg.node@, strs(msg.types@)));
        let mut out: Vec<TypeSupported> = Vec::new();
        let ts = &msg.types;
        let ghost tv = strs(ts@);
        if find_str(&self.nodes, &msg.node).is_none() {
            assert(out@.map_values(|x: TypeSupported| x@) =~= old(self)@.notices(msg.node@, tv));
            return out;
        }
        let mut i: usize = 0;
        while i < ts.len()
            invariant
                i <= ts.len(),
                self.inv(),
                self@ == old(self)@.announce(msg.node@, tv),
                tv == strs(ts@),
                self@.nodes.contains(msg.node@),
                out@.map_values(|x: TypeSupported| x@) == old(self)@.notices(
                    msg.node@,
                    tv.take(i as int),
                ),
            decreases ts.len() - i,
        {
            let ghost prev = out@;
            assert(tv.take(i + 1).drop_last() =~= tv.take(i as int));
            assert(tv.take(i + 1).last() == ts@[i as int]@);
            match find_first(&self.recipients, &ts[i]) {
                Some(p) => {
                    assert(pairs(self.recipients@)[p as int].0 == ts@[i as int]@);
                    assert(self@.proxy_of(ts@[i as int]@) == Some(p as nat));
                    out.push(
                        TypeSupported {
                            proxy: p,
                            type_id: ts[i].clone(),
                            node_id: msg.node.clone(),
                        },
                    );
                    assert(out@.map_values(|x: TypeSupported| x@) =~= prev.map_values(
                        |x: TypeSupported| x@,
                    ).push((p as nat, ts@[i as int]@, msg.node@)));
                },
                None => {
                    assert forall|j: int| 0 <= j < self@.recipients.len() implies self@.recipients[j].0
                        != ts@[i as int]@ by {
                        assert(pairs(self.recipients@)[j].0 == self.recipients@[j].0@);
                    }
                },
            }
            i = i + 1;
        }
        assert(tv.take(ts.len() as int) =~= tv);
        out
    }

    /// Activates the coordinator: hands over the bound listeners and starts
    /// a link for each configured node. Only the first call does so; later
    /// calls return `None`.
    pub fn start(&mut self) -> (r: Option<Startup>)
        requires
            old(self).inv(),
        ensures
            final(self).inv(),
            old(self)@.started ==> r is None && final(self)@ == old(self)@,
            !old(self)@.started ==> r is Some && final(self)@ == old(self)@.start(),
            r matches Some(st) ==> strs(st.listeners@).to_set() == old(self)@.sockets
                && st.nodes.len() == old(self)@.addrs.len() && forall|i: int|
                0 <= i < st.nodes.len() ==> #[trigger] st.nodes@[i]@ == (
                    old(self)@.spawns(old(self)@.addrs[i]),
                    old(self)@.addrs[i],
                ),
    {
        if self.started {
            return None;
        }
        let mut listeners: Vec<String> = Vec::new();
        std::mem::swap(&mut listeners, &mut self.sockets);
        let nodes = connect_all(&mut self.nodes, &self.addrs);
        self.started = true;
        assert(strs(self.sockets@).to_set() =~= Set::empty());
        assert(self@ =~= old(self)@.start());
        Some(Startup { listeners, nodes })
    }

    /// Number of registered inbound workers.
    pub fn worker_count(&self) -> (r: usize)
        ensures
            r == self@.workers.len(),
    {
        self.workers.len()
    }

    /// Whether the node identity `id` has a live link.
    pub fn has_node(&self, id: &String) -> (r: bool)
        ensures
            r == self@.nodes.contains(id@),
    {
        find_str(&self.nodes, id).is_some()
    }

    /// Whether `node` is known to support messages of type `type_id`.
    pub fn supports(&self, type_id: &String, node: &String) -> (r: bool)
        ensures
            r == self@.types.contains((type_id@, node@)),
    {
        has_pair(&self.types, type_id, node)
    }

    /// Whether a local handler is published for `type_id`.
    pub fn has_handler(&self, type_id: &String) -> (r: bool)
        ensures
            r == self@.handlers.contains(type_id@),
    {
        find_str(&self.handlers, type_id).is_some()
    }

    /// The shutdown state.
    pub fn phase(&self) -> (r: Phase)
        ensures
            r == self@.phase,
    {
        self.phase
    }
}

} // verus!
