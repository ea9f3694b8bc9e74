//! A 16-way trie keyed by stable 64-bit type ids: the key is read four bits
//! at a time, high bits first, each nibble indexing one level of nodes, the
//! value sitting below the last nibble.

use vstd::prelude::*;

verus! {

/// How many bits one level consumes.
pub const TREE_SIZE: usize = 4;

/// How many levels a full key walk descends.
pub const TREE_LEVELS: usize = 16;

/// One trie level: an inner node of up to sixteen children, or a stored
/// value.
#[derive(Debug)]
pub enum TypeIdTree<T> {
    /// Inner node; child `i` covers the keys whose next nibble is `i`.
    Node {
        /// The children, indexed by nibble.
        nodes: Vec<Option<Box<TypeIdTree<T>>>>,
    },
    /// A stored value, below the last nibble.
    Data {
        /// The value.
        vul: T,
    },
}

/// The nibble of `key` consumed at `level` (levels count down to one).
pub open spec fn nibble_of(key: u64, level: nat) -> int {
    ((key >> (((level - 1) * 4) as u64)) & 0xf) as int
}

/// Whether two keys take the same path through `level` more levels.
pub open spec fn keys_agree(k1: u64, k2: u64, level: nat) -> bool {
    forall|l: nat| 1 <= l <= level ==> #[trigger] nibble_of(k1, l) == nibble_of(k2, l)
}

/// Agreement through one more level splits into that level's nibble and
/// the rest.
pub proof fn lemma_keys_agree_step(k1: u64, k2: u64, level: nat)
    requires
        level >= 1,
    ensures
        keys_agree(k1, k2, level) == (nibble_of(k1, level) == nibble_of(k2, level)
            && keys_agree(k1, k2, (level - 1) as nat)),
{
    if nibble_of(k1, level) == nibble_of(k2, level) && keys_agree(k1, k2, (level - 1) as nat) {
        assert forall|l: nat| 1 <= l <= level
            implies #[trigger] nibble_of(k1, l) == nibble_of(k2, l) by {
            if l < level {
                assert(nibble_of(k1, l) == nibble_of(k2, l));
            }
        }
    }
}

/// Agreement through one more level splits into that level's nibble and
/// the rest; ambient form for walks that cannot invoke it per key.
pub broadcast proof fn lemma_keys_agree_step_auto(k1: u64, k2: u64, level: nat)
    requires
        level >= 1,
    ensures
        #[trigger] keys_agree(k1, k2, level) == (nibble_of(k1, level) == nibble_of(k2, level)
            && keys_agree(k1, k2, (level - 1) as nat)),
{
    lemma_keys_agree_step(k1, k2, level);
}

/// What a walk for `key` through `level` more levels finds.
pub open spec fn tree_lookup<T>(t: TypeIdTree<T>, key: u64, level: nat) -> Option<T>
    decreases level,
{
    match t {
        TypeIdTree::Data { vul } => if level == 0 {
            Option::Some(vul)
        } else {
            Option::None
        },
        TypeIdTree::Node { nodes } => if level == 0 {
            Option::None
        } else {
            let idx = nibble_of(key, level);
            if 0 <= idx < nodes@.len() && nodes@[idx] is Some {
                tree_lookup(*nodes@[idx]->0, key, (level - 1) as nat)
            } else {
                Option::None
            }
        },
    }
}

/// Whether storing under `key` can succeed through `level` more levels:
/// the walk meets no stored value before the key is spent and no missing
/// child slot.
pub open spec fn can_set<T>(t: TypeIdTree<T>, key: u64, level: nat) -> bool
    decreases level,
{
    if level == 0 {
        true
    } else {
        match t {
            TypeIdTree::Data { .. } => false,
            TypeIdTree::Node { nodes } => {
                let idx = nibble_of(key, level);
                &&& 0 <= idx < nodes@.len()
                &&& (nodes@[idx] is Some ==> can_set(*nodes@[idx]->0, key, (level - 1) as nat))
            },
        }
    }
}

impl<T> TypeIdTree<T> {
    /// An empty inner node with all sixteen children absent.
    #[verifier::loop_isolation(false)]
    pub fn new() -> (r: TypeIdTree<T>)
        ensures
            r is Node,
            r->Node_nodes@.len() == 16,
            forall|i: int| 0 <= i < 16 ==> (#[trigger] r->Node_nodes@[i]) is None,
            forall|key: u64, level: nat| level > 0
                ==> #[trigger] tree_lookup(r, key, level) is None,
    {
        let mut nodes: Vec<Option<Box<TypeIdTree<T>>>> = Vec::new();
        let mut i: usize = 0;
        while i < 16
            invariant
                i <= 16,
                nodes@.len() == i,
                forall|k: int| 0 <= k < i ==> (#[trigger] nodes@[k]) is None,
            decreases 16 - i,
        {
            nodes.push(None);
            i = i + 1;
        }
        let r = TypeIdTree::Node { nodes };
        proof {
            assert forall|key: u64, level: nat| level > 0
                implies #[trigger] tree_lookup(r, key, level) is None by {
                let sh = (((level - 1) * 4) as u64);
                assert(((key >> sh) & 0xf) < 16) by (bit_vector);
                assert(nibble_of(key, level) == ((key >> sh) & 0xf) as int);
            }
        }
        r
    }

    /// The stored value under `key`, walking the full key.
    pub fn get(&self, key: u64) -> (r: Option<&T>)
        ensures
            match r {
                Option::Some(v) => tree_lookup(*self, key, TREE_LEVELS as nat)
                    == Option::Some(*v),
                Option::None => tree_lookup(*self, key, TREE_LEVELS as nat) is None,
            },
    {
        self.get_at(key, TREE_LEVELS)
    }

    /// The stored value under `key`, walking `level` more levels.
    fn get_at(&self, key: u64, level: usize) -> (r: Option<&T>)
        requires
            level <= TREE_LEVELS,
        ensures
            match r {
                Option::Some(v) => tree_lookup(*self, key, level as nat) == Option::Some(*v),
                Option::None => tree_lookup(*self, key, level as nat) is None,
            },
        decreases level,
    {
        match self {
            TypeIdTree::Data { vul } => {
                if level == 0 {
                    Some(vul)
                } else {
                    None
                }
            },
            TypeIdTree::Node { nodes } => {
                if level == 0 {
                    return None;
                }
                let shift = ((level - 1) * 4) as u64;
                let idx = ((key >> shift) & 0xf) as usize;
                proof {
                    assert(((key >> shift) & 0xf) < 16) by (bit_vector);
                    assert(idx == nibble_of(key, level as nat));
                }
                if idx < nodes.len() {
                    match &nodes[idx] {
                        Some(child) => child.get_at(key, level - 1),
                        None => None,
                    }
                } else {
                    None
                }
            },
        }
    }

    /// Stores a value under `key`, building the path as needed. Succeeds —
    /// last write wins — exactly when the walk meets no stored value before
    /// the key is spent; afterwards the key finds the value and every other
    /// key finds what it found before. A refused store changes nothing.
    pub fn set(&mut self, key: u64, v: T) -> (r: bool)
        ensures
            r == can_set(*old(self), key, TREE_LEVELS as nat),
            r ==> forall|k2: u64| #[trigger] tree_lookup(*final(self), k2, TREE_LEVELS as nat)
                == if keys_agree(k2, key, TREE_LEVELS as nat) {
                    Option::Some(v)
                } else {
                    tree_lookup(*old(self), k2, TREE_LEVELS as nat)
                },
            !r ==> forall|k2: u64| #[trigger] tree_lookup(*final(self), k2, TREE_LEVELS as nat)
                == tree_lookup(*old(self), k2, TREE_LEVELS as nat),
            r ==> tree_lookup(*final(self), key, TREE_LEVELS as nat) == Option::Some(v),
    {
        let r = self.set_at(key, v, TREE_LEVELS);
        proof {
            if r {
                assert(keys_agree(key, key, TREE_LEVELS as nat));
            }
        }
        r
    }

    /// Stores a value under `key`, walking `level` more levels.
    fn set_at(&mut self, key: u64, v: T, level: usize) -> (r: bool)
        requires
            level <= TREE_LEVELS,
        ensures
            r == can_set(*old(self), key, level as nat),
            r ==> forall|k2: u64| #[trigger] tree_lookup(*final(self), k2, level as nat)
                == if keys_agree(k2, key, level as nat) {
                    Option::Some(v)
                } else {
                    tree_lookup(*old(self), k2, level as nat)
                },
            !r ==> forall|k2: u64| #[trigger] tree_lookup(*final(self), k2, level as nat)
                == tree_lookup(*old(self), k2, level as nat),
        decreases level,
    {
        if level == 0 {
            *self = TypeIdTree::Data { vul: v };
            return true;
        }
        let ghost pre_tree = *self;
        let ghost lvl = level as nat;
        let is_node = match self {
            TypeIdTree::Data { .. } => false,
            TypeIdTree::Node { .. } => true,
        };
        if !is_node {
            proof {
                assert(!can_set(pre_tree, key, lvl));
            }
            return false;
        }
        let shift = ((level - 1) * 4) as u64;
        let idx = ((key >> shift) & 0xf) as usize;
        proof {
            assert(((key >> shift) & 0xf) < 16) by (bit_vector);
            assert(idx == nibble_of(key, lvl));
        }
        let ghost mut child0: Option<TypeIdTree<T>> = Option::None;
        let mut ok = false;
        match self {
            TypeIdTree::Node { nodes } => {
                if idx >= nodes.len() {
                    proof {
                        assert(!can_set(pre_tree, key, lvl));
                    }
                    return false;
                }
                let ghost nodes0 = nodes@;
                let mut slot: Option<Box<TypeIdTree<T>>> = None;
                nodes.set_and_swap(idx, &mut slot);
                match slot {
                    Some(child) => {
                        let mut boxed = child;
                        proof {
                            child0 = Option::Some(*boxed);
                        }
                        ok = boxed.set_at(key, v, level - 1);
                        let mut back: Option<Box<TypeIdTree<T>>> = Some(boxed);
                        nodes.set_and_swap(idx, &mut back);
                        proof {
                            assert(nodes@.len() == nodes0.len());
                            assert(forall|i: int| 0 <= i < nodes0.len() && i != idx
                                ==> #[trigger] nodes@[i] == nodes0[i]);
                            assert(nodes@[idx as int] is Some);
                        }
                    },
                    None => {
                        let fresh = Self::path_to(key, v, level - 1);
                        let mut back: Option<Box<TypeIdTree<T>>> = Some(Box::new(fresh));
                        nodes.set_and_swap(idx, &mut back);
                        ok = true;
                        proof {
                            assert(nodes@.len() == nodes0.len());
                            assert(forall|i: int| 0 <= i < nodes0.len() && i != idx
                                ==> #[trigger] nodes@[i] == nodes0[i]);
                            assert(nodes@[idx as int] is Some);
                            assert(*nodes@[idx as int]->0 == fresh);
                        }
                    },
                }
            },
            TypeIdTree::Data { .. } => {
                proof {
                    assert(false);
                }
            },
        }
        proof {
            let post_tree = *self;
            let pn = pre_tree->Node_nodes@;
            let qn = post_tree->Node_nodes@;
            assert(post_tree is Node);
            assert(qn.len() == pn.len());
            assert(ok == can_set(pre_tree, key, lvl)) by {
                match child0 {
                    Option::Some(c0) => {
                        assert(pn[idx as int] is Some && *pn[idx as int]->0 == c0);
                        assert(ok == can_set(c0, key, (lvl - 1) as nat));
                    },
                    Option::None => {
                        assert(pn[idx as int] is None);
                    },
                }
            }
            assert forall|k2: u64| #[trigger] tree_lookup(post_tree, k2, lvl) == if ok
                && keys_agree(k2, key, lvl) {
                Option::Some(v)
            } else {
                tree_lookup(pre_tree, k2, lvl)
            } by {
                lemma_keys_agree_step(k2, key, lvl);
                let idx2 = nibble_of(k2, lvl);
                if idx2 == idx {
                    assert(keys_agree(k2, key, lvl) == keys_agree(k2, key, (lvl - 1) as nat));
                    match child0 {
                        Option::Some(c0) => {
                            assert(tree_lookup(post_tree, k2, lvl)
                                == tree_lookup(*qn[idx as int]->0, k2, (lvl - 1) as nat));
                            assert(tree_lookup(pre_tree, k2, lvl)
                                == tree_lookup(c0, k2, (lvl - 1) as nat));
                        },
                        Option::None => {
                            assert(tree_lookup(pre_tree, k2, lvl) is None);
                            assert(tree_lookup(post_tree, k2, lvl)
                                == tree_lookup(*qn[idx as int]->0, k2, (lvl - 1) as nat));
                        },
                    }
                } else {
                    assert(!keys_agree(k2, key, lvl));
                    if 0 <= idx2 < pn.len() {
                        assert(qn[idx2] == pn[idx2]);
                    }
                }
            }
        }
        ok
    }

    /// A fresh path carrying the value below `level` more levels of `key`:
    /// the key (and every key walking the same path) finds the value, every
    /// other key nothing.
    fn path_to(key: u64, v: T, level: usize) -> (r: TypeIdTree<T>)
        requires
            level <= TREE_LEVELS,
        ensures
            forall|k2: u64| #[trigger] tree_lookup(r, k2, level as nat)
                == if keys_agree(k2, key, level as nat) {
                    Option::Some(v)
                } else {
                    Option::None
                },
            tree_lookup(r, key, level as nat) == Option::Some(v),
        decreases level,
    {
        if level == 0 {
            TypeIdTree::Data { vul: v }
        } else {
            let below = Self::path_to(key, v, level - 1);
            let shift = ((level - 1) * 4) as u64;
            let idx = ((key >> shift) & 0xf) as usize;
            proof {
                assert(((key >> shift) & 0xf) < 16) by (bit_vector);
                assert(idx == nibble_of(key, level as nat));
            }
            let mut nodes: Vec<Option<Box<TypeIdTree<T>>>> = Vec::new();
            let mut i: usize = 0;
            while i < 16
                invariant
                    i <= 16,
                    nodes@.len() == i,
                    forall|k: int| 0 <= k < i ==> (#[trigger] nodes@[k]) is None,
                decreases 16 - i,
            {
                nodes.push(None);
                i = i + 1;
            }
            let mut slot: Option<Box<TypeIdTree<T>>> = Some(Box::new(below));
            nodes.set_and_swap(idx, &mut slot);
            let r = TypeIdTree::Node { nodes };
            proof {
                let lvl = level as nat;
                assert forall|k2: u64| #[trigger] tree_lookup(r, k2, lvl)
                    == if keys_agree(k2, key, lvl) {
                    Option::Some(v)
                } else {
                    Option::None
                } by {
                    lemma_keys_agree_step(k2, key, lvl);
                    let idx2 = nibble_of(k2, lvl);
                    if idx2 == idx {
                        assert(r->Node_nodes@[idx2] is Some);
                        assert(*r->Node_nodes@[idx2]->0 == below);
                        assert(tree_lookup(r, k2, lvl) == tree_lookup(below, k2, (lvl - 1) as nat));
                    } else {
                        if 0 <= idx2 < 16 {
                            assert(r->Node_nodes@[idx2] is None);
                        }
                    }
                }
            }
            r
        }
    }

    /// The children, if this is an inner node.
    pub fn as_node(&self) -> (r: Option<&Vec<Option<Box<TypeIdTree<T>>>>>)
        ensures
            match r {
                Option::Some(ns) => *self is Node && self->Node_nodes == *ns,
                Option::None => *self is Data,
            },
    {
        match self {
            TypeIdTree::Node { nodes } => Some(nodes),
            TypeIdTree::Data { .. } => None,
        }
    }

    /// The stored value, if this is a leaf.
    pub fn as_data(&self) -> (r: Option<&T>)
        ensures
            match r {
                Option::Some(v) => *self is Data && self->Data_vul == *v,
                Option::None => *self is Node,
            },
    {
        match self {
            TypeIdTree::Node { .. } => None,
            TypeIdTree::Data { vul } => Some(vul),
        }
    }

    /// Write access to the children, if this is an inner node.
    pub fn as_node_mut(&mut self) -> (r: Option<&mut Vec<Option<Box<TypeIdTree<T>>>>>)
        ensures
            (*old(self)) is Data ==> r is None && (*final(self)) is Data,
            (*old(self)) is Node ==> r is Some,
    {
        match self {
            TypeIdTree::Node { nodes } => Some(nodes),
            TypeIdTree::Data { .. } => None,
        }
    }

    /// Write access to the stored value, if this is a leaf.
    pub fn as_data_mut(&mut self) -> (r: Option<&mut T>)
        ensures
            (*old(self)) is Node ==> r is None && (*final(self)) is Node,
            (*old(self)) is Data ==> r is Some,
    {
        match self {
            TypeIdTree::Node { .. } => None,
            TypeIdTree::Data { vul } => Some(vul),
        }
    }

    /// Write access to the value stored under `key`, walking the full key:
    /// present exactly when a walk for the key finds a stored value, and a
    /// write through it is what the key finds afterwards. What other keys
    /// find after a framed update is pinned by `set`'s contract; this
    /// handle's contract speaks of the walked key.
    pub fn get_mut(&mut self, key: u64) -> (r: Option<&mut T>)
        ensures
            r is Some <==> tree_lookup(*old(self), key, TREE_LEVELS as nat) is Some,
            r matches Option::Some(m) ==> {
                &&& tree_lookup(*old(self), key, TREE_LEVELS as nat) == Option::Some(*m)
                &&& tree_lookup(*final(self), key, TREE_LEVELS as nat) == Option::Some(*final(m))
            },
    {
        self.get_mut_at(key, TREE_LEVELS)
    }

    /// Write access to the value under `key`, walking `level` more levels.
    fn get_mut_at(&mut self, key: u64, level: usize) -> (r: Option<&mut T>)
        requires
            level <= TREE_LEVELS,
        ensures
            r is Some <==> tree_lookup(*old(self), key, level as nat) is Some,
            r matches Option::Some(m) ==> {
                &&& tree_lookup(*old(self), key, level as nat) == Option::Some(*m)
                &&& tree_lookup(*final(self), key, level as nat) == Option::Some(*final(m))
            },
        decreases level,
    {
        broadcast use lemma_keys_agree_step_auto;

        match self {
            TypeIdTree::Data { vul } => {
                if level == 0 {
                    Some(vul)
                } else {
                    None
                }
            },
            TypeIdTree::Node { nodes } => {
                if level == 0 {
                    return None;
                }
                let shift = ((level - 1) * 4) as u64;
                let idx = ((key >> shift) & 0xf) as usize;
                proof {
                    assert(((key >> shift) & 0xf) < 16) by (bit_vector);
                    assert(idx == nibble_of(key, level as nat));
                }
                if idx < nodes.len() {
                    match &mut nodes[idx] {
                        Some(child) => child.get_mut_at(key, level - 1),
                        None => None,
                    }
                } else {
                    None
                }
            },
        }
    }
}

} // verus!
