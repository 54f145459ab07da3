use vstd::prelude::*;

use crate::entry::NodeId;

verus! {

/// Why a message could not be delivered to a peer. The transport does not
/// retry: each failure is handed back to the consensus engine at once.
#[derive(Clone, Copy, Debug, PartialEq, Eq, Structural)]
pub enum TransportError {
    /// The routing table has no address for the peer.
    UnknownPeer,
    /// The peer could not be reached.
    Unreachable,
    /// The peer did not answer in time.
    Timeout,
}

/// Why a cluster configuration could not be built.
#[derive(Clone, Copy, Debug, PartialEq, Eq, Structural)]
pub enum ConfigError {
    /// There are not as many addresses as node ids.
    LengthMismatch,
    /// A node id occurs twice.
    DuplicateNode,
}

/// Some id occurs twice in `ids`.
pub open spec fn has_duplicate(ids: Seq<NodeId>) -> bool {
    exists|i: int, j: int| 0 <= i < j < ids.len() && ids[i] == ids[j]
}

/// The static cluster topology: the members, each with its address. Every
/// member has exactly one route.
pub struct ClusterConfig {
    routes: Vec<(NodeId, String)>,
}

impl ClusterConfig {
    /// The routes in the order they were given.
    pub closed spec fn routes(&self) -> Seq<(NodeId, Seq<char>)> {
        self.routes@.map_values(|p: (NodeId, String)| (p.0, p.1@))
    }

    pub open spec fn wf(&self) -> bool {
        !has_duplicate(self.routes().map_values(|p: (NodeId, Seq<char>)| p.0))
    }

    pub open spec fn is_member(&self, id: NodeId) -> bool {
        exists|i: int| 0 <= i < self.routes().len() && #[trigger] self.routes()[i].0 == id
    }

    /// The configuration in which node `ids[i]` is reached at `addrs[i]`.
    pub fn new(ids: &Vec<NodeId>, addrs: &Vec<String>) -> (r: Result<ClusterConfig, ConfigError>)
        ensures
            r == Err::<ClusterConfig, ConfigError>(ConfigError::LengthMismatch) <==> ids@.len() != addrs@.len(),
            r == Err::<ClusterConfig, ConfigError>(ConfigError::DuplicateNode) <==> ids@.len() == addrs@.len()
                && has_duplicate(ids@),
            r matches Ok(c) ==> c.wf() && c.routes().len() == ids@.len() && forall|i: int|
                0 <= i < ids@.len() ==> #[trigger] c.routes()[i] == (ids@[i], addrs@[i]@),
    {
        let n = ids.len();
        if n != addrs.len() {
            return Err(ConfigError::LengthMismatch);
        }
        let mut j: usize = 0;
        while j < n
            invariant
                n == ids@.len(),
                n == addrs@.len(),
                j <= n,
                forall|a: int, b: int| 0 <= a < b < j ==> ids@[a] != ids@[b],
            decreases n - j,
        {
            let mut i: usize = 0;
            while i < j
                invariant
                    n == ids@.len(),
                    n == addrs@.len(),
                    i <= j < n,
                    forall|a: int| 0 <= a < i ==> ids@[a] != ids@[j as int],
                decreases j - i,
            {
                if ids[i] == ids[j] {
                    assert(ids@[i as int] == ids@[j as int]);
                    return Err(ConfigError::DuplicateNode);
                }
                i += 1;
            }
            j += 1;
        }
        let mut routes: Vec<(NodeId, String)> = Vec::new();
        let mut k: usize = 0;
        while k < n
            invariant
                n == ids@.len(),
                n == addrs@.len(),
                k <= n,
                routes@.len() == k,
                forall|i: int| 0 <= i < k ==> #[trigger] routes@[i].0 == ids@[i] && routes@[i].1@ == addrs@[i]@,
            decreases n - k,
        {
            routes.push((ids[k], addrs[k].clone()));
            k += 1;
        }
        let c = ClusterConfig { routes };
        proof {
            let ks = c.routes().map_values(|p: (NodeId, Seq<char>)| p.0);
            assert(ks =~= ids@);
        }
        Ok(c)
    }

    /// The address of node `target`.
    pub fn address_of(&self, target: NodeId) -> (r: Result<String, TransportError>)
        requires
            self.wf(),
        ensures
            r is Ok <==> self.is_member(target),
            r is Err ==> r == Err::<String, TransportError>(TransportError::UnknownPeer),
            r matches Ok(a) ==> forall|i: int|
                0 <= i < self.routes().len() && #[trigger] self.routes()[i].0 == target ==> self.routes()[i].1 == a@,
    {
        let n = self.routes.len();
        let mut i: usize = 0;
        while i < n
            invariant
                self.wf(),
                n == self.routes@.len(),
                i <= n,
                forall|a: int| 0 <= a < i ==> self.routes@[a].0 != target,
            decreases n - i,
        {
            if self.routes[i].0 == target {
                let a = self.routes[i].1.clone();
                proof {
                    let ks = self.routes().map_values(|p: (NodeId, Seq<char>)| p.0);
                    assert(self.routes()[i as int] == (self.routes@[i as int].0, self.routes@[i as int].1@));
                    assert(self.routes()[i as int].0 == target);
                    assert forall|b: int|
                        0 <= b < self.routes().len() && #[trigger] self.routes()[b].0 == target implies self.routes()[b].1 == a@ by {
                        assert(self.routes()[b] == (self.routes@[b].0, self.routes@[b].1@));
                        assert(ks[b] == self.routes()[b].0);
                        assert(ks[i as int] == self.routes()[i as int].0);
                        if b != i {
                            assert(ks[b] == ks[i as int]);
                            if b < i {
                                assert(self.routes@[b].0 == target);
                            } else {
                                assert(has_duplicate(ks));
                            }
                        }
                    }
                }
                return Ok(a);
            }
            i += 1;
        }
        proof {
            if self.is_member(target) {
                let b = choose|b: int| 0 <= b < self.routes().len() && #[trigger] self.routes()[b].0 == target;
                assert(self.routes()[b] == (self.routes@[b].0, self.routes@[b].1@));
            }
        }
        Err(TransportError::UnknownPeer)
    }

    /// The member ids, in the order they were given.
    pub fn members(&self) -> (r: Vec<NodeId>)
        ensures
            r@ == self.routes().map_values(|p: (NodeId, Seq<char>)| p.0),
    {
        let n = self.routes.len();
        let mut out: Vec<NodeId> = Vec::new();
        let mut i: usize = 0;
        while i < n
            invariant
                n == self.routes@.len(),
                i <= n,
                out@.len() == i,
                forall|a: int| 0 <= a < i ==> #[trigger] out@[a] == self.routes@[a].0,
            decreases n - i,
        {
            out.push(self.routes[i].0);
            i += 1;
        }
        proof {
            assert(out@ =~= self.routes().map_values(|p: (NodeId, Seq<char>)| p.0));
        }
        out
    }
}

} // verus!
