//! Identity of the machines a deployment runs on: edge nodes with a cache,
//! and network peers with an address.
use vstd::prelude::*;

verus! {

/// An edge node and the size of its cache.
#[derive(Debug, Clone)]
pub struct EdgeManager {
    node_id: String,
    cache_size: usize,
}

impl EdgeManager {
    pub closed spec fn spec_node_id(&self) -> Seq<char> {
        self.node_id@
    }

    pub closed spec fn spec_cache_size(&self) -> usize {
        self.cache_size
    }

    pub fn new(node_id: String, cache_size: usize) -> (m: EdgeManager)
        ensures
            m.spec_node_id() == node_id@,
            m.spec_cache_size() == cache_size,
    {
        EdgeManager { node_id, cache_size }
    }

    pub fn get_node_id(&self) -> (r: &str)
        ensures
            r@ == self.spec_node_id(),
    {
        self.node_id.as_str()
    }

    pub fn get_cache_size(&self) -> (r: usize)
        ensures
            r == self.spec_cache_size(),
    {
        self.cache_size
    }

    pub fn resize_cache(&mut self, new_size: usize)
        ensures
            final(self).spec_cache_size() == new_size,
            final(self).spec_node_id() == old(self).spec_node_id(),
    {
        self.cache_size = new_size;
    }
}

/// A peer of the network layer: its identifier and address.
#[derive(Debug, Clone)]
pub struct Node {
    id: String,
    addr: String,
}

impl Node {
    pub closed spec fn spec_id(&self) -> Seq<char> {
        self.id@
    }

    pub closed spec fn spec_address(&self) -> Seq<char> {
        self.addr@
    }

    pub fn new(id: String, addr: String) -> (n: Node)
        ensures
            n.spec_id() == id@,
            n.spec_address() == addr@,
    {
        Node { id, addr }
    }

    pub fn get_id(&self) -> (r: &str)
        ensures
            r@ == self.spec_id(),
    {
        self.id.as_str()
    }

    pub fn get_address(&self) -> (r: &str)
        ensures
            r@ == self.spec_address(),
    {
        self.addr.as_str()
    }

    pub fn update_address(&mut self, new_addr: String)
        ensures
            final(self).spec_address() == new_addr@,
            final(self).spec_id() == old(self).spec_id(),
    {
        self.addr = new_addr;
    }
}

} // verus!
