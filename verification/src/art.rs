//! Adaptive radix trie over full key bytes.
//!
//! Interior nodes come in four shapes (4, 16, 48 and 256 slots) and
//! switch shape as children come and go.  A node may carry a leaf: the
//! terminator for the key equal to the path walked so far.  The trie is
//! specified as a map from byte strings to `KVpos` records; every
//! operation's contract is stated against that map.

use vstd::prelude::*;

use crate::storage::KVpos;

verus! {

broadcast use vstd::map::group_map_axioms, vstd::set::group_set_axioms, vstd::map_lib::group_map_properties;

/// Fewest children a 4-slot node is shrunk to hold.
pub const NODE4MIN: usize = 2;

/// Most children a 4-slot node holds.
pub const NODE4MAX: usize = 4;

/// Fewest children a 16-slot node holds.
pub const NODE16MIN: usize = 5;

/// Most children a 16-slot node holds.
pub const NODE16MAX: usize = 16;

/// Fewest children a 48-slot node holds.
pub const NODE48MIN: usize = 17;

/// Most children a 48-slot node holds.
pub const NODE48MAX: usize = 48;

/// Fewest children a 256-slot node holds.
pub const NODE256MIN: usize = 49;

/// Most children a 256-slot node holds.
pub const NODE256MAX: usize = 256;

/// The four node shapes.
#[derive(Clone, Copy, PartialEq, Eq, Structural, Debug)]
pub enum ArtNodeType {
    /// Up to four children; sorted parallel key array.
    Node4,
    /// Up to sixteen children; unsorted parallel key array.
    Node16,
    /// Up to 48 children; a 256-entry byte-to-slot table (0 = absent,
    /// `s + 1` = child slot `s`).
    Node48,
    /// Up to 256 children, indexed directly by key byte.
    Node256,
}

/// The terminator of one key: the full key bytes and the record that
/// locates its value.
pub struct Leaf {
    pub key: Vec<u8>,
    pub value_pos: KVpos,
}

/// One trie node.
pub struct Node {
    pub typ: ArtNodeType,
    pub keys: Vec<u8>,
    pub children: Vec<Option<Node>>,
    pub leaf: Option<Leaf>,
}

/// How many child slots are occupied.
pub open spec fn count_some(s: Seq<Option<Node>>) -> int
    decreases s.len(),
{
    if s.len() == 0 {
        0
    } else {
        count_some(s.drop_last()) + if s.last() is Some {
            1int
        } else {
            0int
        }
    }
}


/// Counting facts for child-slot sequences.
pub proof fn lemma_count_bounds(s: Seq<Option<Node>>)
    ensures
        0 <= count_some(s) <= s.len(),
    decreases s.len(),
{
    if s.len() > 0 {
        lemma_count_bounds(s.drop_last());
    }
}

/// Occupied-slot count after overwriting one slot.
pub proof fn lemma_count_update(s: Seq<Option<Node>>, i: int, v: Option<Node>)
    requires
        0 <= i < s.len(),
    ensures
        count_some(s.update(i, v)) == count_some(s) - (if s[i] is Some {
            1int
        } else {
            0int
        }) + (if v is Some {
            1int
        } else {
            0int
        }),
    decreases s.len(),
{
    let t = s.update(i, v);
    if i == s.len() - 1 {
        assert(t.drop_last() =~= s.drop_last());
    } else {
        lemma_count_update(s.drop_last(), i, v);
        assert(t.drop_last() =~= s.drop_last().update(i, v));
        assert(t.last() == s.last());
    }
}

/// Occupied-slot count after inserting one slot.
pub proof fn lemma_count_insert(s: Seq<Option<Node>>, i: int, v: Option<Node>)
    requires
        0 <= i <= s.len(),
    ensures
        count_some(s.insert(i, v)) == count_some(s) + (if v is Some {
            1int
        } else {
            0int
        }),
    decreases s.len(),
{
    let t = s.insert(i, v);
    if i == s.len() {
        assert(t.drop_last() =~= s);
        assert(t.last() == v);
    } else {
        lemma_count_insert(s.drop_last(), i, v);
        assert(t.drop_last() =~= s.drop_last().insert(i, v));
        assert(t.last() == s.last());
    }
}

/// A wholly occupied run counts its length.
pub proof fn lemma_count_full(s: Seq<Option<Node>>)
    requires
        forall|i: int| 0 <= i < s.len() ==> (#[trigger] s[i]) is Some,
    ensures
        count_some(s) == s.len(),
    decreases s.len(),
{
    if s.len() > 0 {
        lemma_count_full(s.drop_last());
    }
}

/// An unoccupied run counts zero.
pub proof fn lemma_count_none(s: Seq<Option<Node>>)
    requires
        forall|i: int| 0 <= i < s.len() ==> (#[trigger] s[i]) is None,
    ensures
        count_some(s) == 0,
    decreases s.len(),
{
    if s.len() > 0 {
        lemma_count_none(s.drop_last());
    }
}

/// An unoccupied tail adds nothing to the count.
pub proof fn lemma_count_tail_none(s: Seq<Option<Node>>, k: int)
    requires
        0 <= k <= s.len(),
        forall|i: int| k <= i < s.len() ==> (#[trigger] s[i]) is None,
    ensures
        count_some(s) == count_some(s.subrange(0, k)),
    decreases s.len(),
{
    if s.len() == k {
        assert(s.subrange(0, k) =~= s);
    } else {
        lemma_count_tail_none(s.drop_last(), k);
        assert(s.drop_last().subrange(0, k) =~= s.subrange(0, k));
    }
}



/// Occupied-slot count after removing one slot.
pub proof fn lemma_count_remove(s: Seq<Option<Node>>, i: int)
    requires
        0 <= i < s.len(),
    ensures
        count_some(s.remove(i)) == count_some(s) - (if s[i] is Some {
            1int
        } else {
            0int
        }),
    decreases s.len(),
{
    let t = s.remove(i);
    if i == s.len() - 1 {
        assert(t =~= s.drop_last());
    } else {
        lemma_count_remove(s.drop_last(), i);
        assert(t.drop_last() =~= s.drop_last().remove(i));
        assert(t.last() == s.last());
    }
}

/// Whether `ps` carries a pair for byte `b`.
pub open spec fn has_pair(ps: Seq<(u8, Node)>, b: u8) -> bool {
    exists|i: int| 0 <= i < ps.len() && ps[i].0 == b
}

/// The node `ps` pairs with byte `b`.
pub open spec fn pair_node(ps: Seq<(u8, Node)>, b: u8) -> Node {
    ps[choose|i: int| 0 <= i < ps.len() && ps[i].0 == b].1
}


/// A slot holding nothing keeps the count below the width.
pub proof fn lemma_count_not_full(s: Seq<Option<Node>>, i: int)
    requires
        0 <= i < s.len(),
        s[i] is None,
    ensures
        count_some(s) < s.len(),
    decreases s.len(),
{
    lemma_count_bounds(s.drop_last());
    if i < s.len() - 1 {
        lemma_count_not_full(s.drop_last(), i);
    }
}

/// A zero count means every slot holds nothing.
pub proof fn lemma_count_zero(s: Seq<Option<Node>>)
    requires
        count_some(s) == 0,
    ensures
        forall|i: int| 0 <= i < s.len() ==> (#[trigger] s[i]) is None,
    decreases s.len(),
{
    if s.len() > 0 {
        lemma_count_bounds(s.drop_last());
        lemma_count_zero(s.drop_last());
        assert forall|i: int| 0 <= i < s.len() implies (#[trigger] s[i]) is None by {
            if i < s.len() - 1 {
                assert(s.drop_last()[i] is None);
            }
        }
    }
}


/// Two heads and equal tails make equal sequences.
pub proof fn lemma_cons_eq(s: Seq<u8>, t: Seq<u8>)
    requires
        s.len() > 0,
        t.len() > 0,
        s[0] == t[0],
        s.drop_first() == t.drop_first(),
    ensures
        s == t,
{
    assert(s =~= seq![s[0]] + s.drop_first());
    assert(t =~= seq![t[0]] + t.drop_first());
}

impl Node {
    /// The child slot serving key byte `b`, by shape.
    pub open spec fn child_slot(self, b: u8) -> Option<int> {
        match self.typ {
            ArtNodeType::Node4 | ArtNodeType::Node16 => if exists|i: int|
                0 <= i < self.keys@.len() && self.keys@[i] == b {
                Some(choose|i: int| 0 <= i < self.keys@.len() && self.keys@[i] == b)
            } else {
                None
            },
            ArtNodeType::Node48 => if self.keys@.len() == 256 && self.keys@[b as int] != 0 {
                Some(self.keys@[b as int] - 1)
            } else {
                None
            },
            ArtNodeType::Node256 => if self.children@.len() == 256 && self.children@[
                b as int
            ] is Some {
                Some(b as int)
            } else {
                None
            },
        }
    }

    /// The child serving key byte `b`, if any.
    pub open spec fn child_at(self, b: u8) -> Option<Node> {
        match self.child_slot(b) {
            None => None,
            Some(i) => if 0 <= i < self.children@.len() && self.children@[i] is Some {
                Some(self.children@[i]->0)
            } else {
                None
            },
        }
    }

    /// Number of children.
    pub open spec fn spec_count(self) -> int {
        count_some(self.children@)
    }

    /// Shape bounds: most children a shape may hold.
    pub open spec fn spec_max(self) -> int {
        match self.typ {
            ArtNodeType::Node4 => 4,
            ArtNodeType::Node16 => 16,
            ArtNodeType::Node48 => 48,
            ArtNodeType::Node256 => 256,
        }
    }

    /// Shape bounds: fewest children a shape is kept at.
    pub open spec fn spec_min(self) -> int {
        match self.typ {
            ArtNodeType::Node4 => 2,
            ArtNodeType::Node16 => 5,
            ArtNodeType::Node48 => 17,
            ArtNodeType::Node256 => 49,
        }
    }

    /// Per-shape layout consistency of one node, children and the
    /// shape's occupancy floor not included.
    pub open spec fn layout_wf(self) -> bool {
        match self.typ {
            ArtNodeType::Node4 => {
                &&& self.keys@.len() == self.children@.len()
                &&& self.keys@.len() <= 4
                &&& forall|i: int| 0 <= i < self.children@.len() ==> (
                #[trigger] self.children@[i]) is Some
                // keys strictly increasing
                &&& forall|i: int, j: int|
                    0 <= i < j < self.keys@.len() ==> (#[trigger] self.keys@[i])
                        < (#[trigger] self.keys@[j])
            },
            ArtNodeType::Node16 => {
                &&& self.keys@.len() == self.children@.len()
                &&& self.keys@.len() <= 16
                &&& forall|i: int| 0 <= i < self.children@.len() ==> (
                #[trigger] self.children@[i]) is Some
                // keys pairwise distinct (any order)
                &&& forall|i: int, j: int|
                    0 <= i < j < self.keys@.len() ==> (#[trigger] self.keys@[i]) != (
                    #[trigger] self.keys@[j])
            },
            ArtNodeType::Node48 => {
                &&& self.keys@.len() == 256
                &&& self.children@.len() <= 48
                // every assigned slot exists and is occupied
                &&& forall|b: int|
                    0 <= b < 256 && #[trigger] self.keys@[b] != 0 ==> self.keys@[b]
                        <= self.children@.len() && self.children@[self.keys@[b] - 1] is Some
                // no two bytes share a slot
                &&& forall|b1: int, b2: int|
                    0 <= b1 < b2 < 256 && #[trigger] self.keys@[b1] != 0 && (
                    #[trigger] self.keys@[b2]) != 0 ==> self.keys@[b1] != self.keys@[b2]
                // no orphan slots
                &&& forall|s: int|
                    0 <= s < self.children@.len() && (#[trigger] self.children@[s]) is Some
                        ==> exists|b: int| 0 <= b < 256 && #[trigger] self.keys@[b] == s + 1
            },
            ArtNodeType::Node256 => {
                &&& self.keys@.len() == 0
                &&& self.children@.len() == 256
            },
        }
    }

    /// The shape's occupancy floor (a 4-slot node has none: it is the
    /// smallest shape).
    pub open spec fn min_ok(self) -> bool {
        self.typ == ArtNodeType::Node4 || self.spec_min() <= self.spec_count()
    }

    /// Per-shape consistency of one node, children not included.
    pub open spec fn shape_wf(self) -> bool {
        self.layout_wf() && self.min_ok()
    }

    /// Whole-subtree consistency: this node and every node under it.
    pub open spec fn wf(self) -> bool
        decreases self,
    {
        &&& self.shape_wf()
        &&& forall|i: int|
            0 <= i < self.children@.len() && (#[trigger] self.children@[i]) is Some
                ==> self.children@[i]->0.wf()
    }

    /// Whether key suffix `s` terminates in this subtree.
    pub open spec fn contains_suffix(self, s: Seq<u8>) -> bool
        decreases s.len(),
    {
        if s.len() == 0 {
            self.leaf is Some
        } else {
            match self.child_at(s[0]) {
                None => false,
                Some(c) => c.contains_suffix(s.drop_first()),
            }
        }
    }

    /// The record key suffix `s` terminates at.
    pub open spec fn pos_at(self, s: Seq<u8>) -> KVpos
        decreases s.len(),
    {
        if s.len() == 0 {
            self.leaf->0.value_pos
        } else {
            self.child_at(s[0])->0.pos_at(s.drop_first())
        }
    }

    /// A fresh 4-slot node with no children and no leaf.
    pub fn new_node4() -> (r: Node)
        ensures
            r.wf(),
            r.typ == ArtNodeType::Node4,
            r.spec_count() == 0,
            r.keys@.len() == 0,
            r.children@.len() == 0,
            r.leaf is None,
            forall|b: u8| r.child_at(b) is None,
            forall|s: Seq<u8>| !r.contains_suffix(s),
    {
        let r = Node {
            typ: ArtNodeType::Node4,
            keys: Vec::new(),
            children: Vec::new(),
            leaf: None,
        };
        proof {
            assert(count_some(r.children@) == 0);
            assert forall|s: Seq<u8>| !r.contains_suffix(s) by {
                if s.len() > 0 {
                    assert(r.child_at(s[0]) is None);
                }
            }
        }
        r
    }

    /// Find the position of key byte `k` among this node's children.
    pub fn index(&self, k: u8) -> (r: Option<usize>)
        requires
            self.shape_wf(),
        ensures
            match r {
                Some(i) => {
                    &&& self.child_slot(k) == Some(i as int)
                    &&& i < self.children@.len()
                    &&& self.children@[i as int] is Some
                    &&& self.child_at(k) == Some(self.children@[i as int]->0)
                },
                None => self.child_at(k) is None && self.child_slot(k) is None,
            },
    {
        match self.typ {
            ArtNodeType::Node4 => self.index_scan(k),
            ArtNodeType::Node16 => self.index_bitfield(k),
            ArtNodeType::Node48 => {
                let slot = self.keys[k as usize];
                if slot == 0 {
                    None
                } else {
                    Some((slot - 1) as usize)
                }
            },
            ArtNodeType::Node256 => {
                if self.children[k as usize].is_some() {
                    Some(k as usize)
                } else {
                    None
                }
            },
        }
    }

    /// Linear scan over the parallel key array: the reference lookup for
    /// the 4- and 16-slot shapes.
    pub fn index_scan(&self, k: u8) -> (r: Option<usize>)
        requires
            self.shape_wf(),
            self.typ == ArtNodeType::Node4 || self.typ == ArtNodeType::Node16,
        ensures
            match r {
                Some(i) => {
                    &&& self.child_slot(k) == Some(i as int)
                    &&& i < self.children@.len()
                    &&& self.children@[i as int] is Some
                    &&& self.child_at(k) == Some(self.children@[i as int]->0)
                },
                None => self.child_at(k) is None && self.child_slot(k) is None,
            },
    {
        let n = self.keys.len();
        let mut i: usize = 0;
        while i < n
            invariant
                i <= n,
                n == self.keys@.len(),
                self.shape_wf(),
                self.typ == ArtNodeType::Node4 || self.typ == ArtNodeType::Node16,
                forall|j: int| 0 <= j < i ==> (#[trigger] self.keys@[j]) != k,
            decreases n - i,
        {
            if self.keys[i] == k {
                proof {
                    let w = choose|w: int| 0 <= w < self.keys@.len() && self.keys@[w] == k;
                    if w < i as int {
                        assert(self.keys@[w] != k);
                    } else if (i as int) < w {
                        assert(self.keys@[i as int] != self.keys@[w]);
                    }
                }
                return Some(i);
            }
            i = i + 1;
        }
        None
    }

    /// Key lookup for the 16-slot shape by the lane-compare route: build
    /// the 16-bit match mask a vectorised compare would produce, mask it
    /// to the live lanes, and take the lowest set bit.  Returns exactly
    /// what the linear scan returns.
    pub fn index_bitfield(&self, k: u8) -> (r: Option<usize>)
        requires
            self.shape_wf(),
            self.typ == ArtNodeType::Node16,
        ensures
            match r {
                Some(i) => {
                    &&& self.child_slot(k) == Some(i as int)
                    &&& i < self.children@.len()
                    &&& self.children@[i as int] is Some
                    &&& self.child_at(k) == Some(self.children@[i as int]->0)
                },
                None => self.child_at(k) is None && self.child_slot(k) is None,
            },
    {
        let n = self.keys.len();
        let mut bit_field: u32 = 0;
        let mut i: usize = 0;
        proof {
            assert forall|j: int| 0 <= j < n implies !((#[trigger] (0u32 >> (j as u32)))
                & 1 == 1) by {
                let ju = j as u32;
                assert((0u32 >> ju) & 1 == 0) by (bit_vector);
            }
            assert(0u32 < (1u32 << 0u32)) by (bit_vector);
        }
        while i < n
            invariant
                i <= n,
                n == self.keys@.len(),
                n <= 16,
                self.shape_wf(),
                self.typ == ArtNodeType::Node16,
                forall|j: int|
                    0 <= j < n ==> ((#[trigger] (bit_field >> (j as u32))) & 1 == 1 <==> j
                        < i && self.keys@[j] == k),
                bit_field < (1u32 << (i as u32)),
            decreases n - i,
        {
            let ghost old_bf = bit_field;
            let ghost iu = i as u32;
            if self.keys[i] == k {
                bit_field = bit_field | (1u32 << (i as u32));
                proof {
                    assert forall|j: int|
                        0 <= j < n implies ((#[trigger] (bit_field >> (j as u32))) & 1 == 1
                        <==> j < i + 1 && self.keys@[j] == k) by {
                        let ju = j as u32;
                        if j == i as int {
                            assert(iu < 16 ==> (((old_bf | (1u32 << iu)) >> iu) & 1) == 1)
                                by (bit_vector);
                        } else if j < i as int {
                            assert(ju != iu && iu < 16 && ju < 16 ==> (((old_bf | (1u32
                                << iu)) >> ju) & 1) == ((old_bf >> ju) & 1)) by (bit_vector);
                        } else {
                            assert(old_bf < (1u32 << iu) && iu < ju && ju < 16 ==> (((old_bf
                                | (1u32 << iu)) >> ju) & 1) == 0) by (bit_vector);
                        }
                    }
                    assert(iu < 16 && old_bf < (1u32 << iu) ==> (old_bf | (1u32 << iu)) < (
                    1u32 << ((iu + 1) as u32))) by (bit_vector);
                }
            } else {
                proof {
                    assert forall|j: int|
                        0 <= j < n implies ((#[trigger] (bit_field >> (j as u32))) & 1 == 1
                        <==> j < i + 1 && self.keys@[j] == k) by {
                        let ju = j as u32;
                        if j == i as int {
                            assert(old_bf < (1u32 << iu) && iu < 16 ==> ((old_bf >> iu) & 1)
                                == 0) by (bit_vector);
                        }
                    }
                    assert(iu < 16 && old_bf < (1u32 << iu) ==> old_bf < (1u32 << ((iu
                        + 1) as u32))) by (bit_vector);
                }
            }
            i = i + 1;
        }
        if bit_field > 0 {
            let tz = bit_field.trailing_zeros() as usize;
            proof {
                vstd::std_specs::bits::axiom_u32_trailing_zeros(bit_field);
                let tzi = vstd::std_specs::bits::u32_trailing_zeros(bit_field);
                assert(bit_field != 0);
                assert(tzi < 32);
                assert((bit_field >> tzi) & 1 == 1);
                assert(tzi < n) by {
                    if tzi >= n as u32 {
                        assert(bit_field < (1u32 << (n as u32)) && n <= 16 && tzi >= n
                            ==> (bit_field >> tzi) & 1 == 0) by (bit_vector)
                            requires
                                bit_field < (1u32 << (n as u32)),
                                n <= 16,
                                tzi >= n,
                        ;
                    }
                }
                assert(self.keys@[tzi as int] == k);
                assert forall|j: int| 0 <= j < tzi implies self.keys@[j] != k by {
                    let ju = j as u32;
                    assert((bit_field >> ju) & 1 == 0);
                }
                let w = choose|w: int| 0 <= w < self.keys@.len() && self.keys@[w] == k;
                if w < tzi as int {
                    assert(self.keys@[w] != k);
                } else if (tzi as int) < w {
                    assert(self.keys@[tzi as int] != self.keys@[w]);
                }
            }
            Some(tz)
        } else {
            proof {
                assert forall|j: int| 0 <= j < self.keys@.len() implies self.keys@[j]
                    != k by {
                    let ju = j as u32;
                    assert((0u32 >> ju) & 1 == 0) by (bit_vector);
                }
            }
            None
        }
    }

    /// Reference to the child serving key byte `k`.
    pub fn find_child(&self, k: u8) -> (r: Option<&Node>)
        requires
            self.shape_wf(),
        ensures
            match r {
                Some(c) => self.child_at(k) == Some(*c),
                None => self.child_at(k) is None,
            },
    {
        match self.index(k) {
            Some(i) => match &self.children[i] {
                Some(c) => Some(c),
                None => None,
            },
            None => None,
        }
    }

    /// Whether a key terminates exactly here.
    pub fn is_leaf(&self) -> (r: bool)
        ensures
            r == (self.leaf is Some),
    {
        self.leaf.is_some()
    }

    /// Occupied child slots.
    pub fn get_child_size(&self) -> (r: usize)
        ensures
            r == self.spec_count(),
            r <= self.children@.len(),
    {
        let n = self.children.len();
        let mut count: usize = 0;
        let mut i: usize = 0;
        while i < n
            invariant
                i <= n,
                n == self.children@.len(),
                count == count_some(self.children@.take(i as int)),
                count <= i,
            decreases n - i,
        {
            if self.children[i].is_some() {
                count = count + 1;
            }
            proof {
                assert(self.children@.take(i + 1).drop_last() =~= self.children@.take(
                    i as int,
                ));
                assert(self.children@.take(i + 1).last() == self.children@[i as int]);
            }
            i = i + 1;
        }
        proof {
            assert(self.children@.take(n as int) =~= self.children@);
        }
        count
    }

    /// Width of the key array.
    pub fn get_keys_size(&self) -> (r: usize)
        ensures
            r == self.keys@.len(),
    {
        self.keys.len()
    }

    /// Most children the current shape may hold.
    pub fn max_size(&self) -> (r: usize)
        ensures
            r == self.spec_max(),
    {
        match self.typ {
            ArtNodeType::Node4 => NODE4MAX,
            ArtNodeType::Node16 => NODE16MAX,
            ArtNodeType::Node48 => NODE48MAX,
            ArtNodeType::Node256 => NODE256MAX,
        }
    }

    /// Fewest children the current shape is kept at.
    pub fn min_size(&self) -> (r: usize)
        ensures
            r == self.spec_min(),
    {
        match self.typ {
            ArtNodeType::Node4 => NODE4MIN,
            ArtNodeType::Node16 => NODE16MIN,
            ArtNodeType::Node48 => NODE48MIN,
            ArtNodeType::Node256 => NODE256MIN,
        }
    }

    /// Whether the current shape is out of room.
    pub fn is_full(&self) -> (r: bool)
        ensures
            r == (self.spec_count() == self.spec_max()),
    {
        self.get_child_size() == self.max_size()
    }

    /// Whether the node has shrunk below its shape's floor.
    pub fn is_less(&self) -> (r: bool)
        ensures
            r == (self.spec_count() < self.spec_min()),
    {
        self.get_child_size() < self.min_size()
    }

    /// In the dense shapes a matching key position determines the slot.
    pub proof fn lemma_dense_slot(self, b: u8, i: int)
        requires
            self.layout_wf(),
            self.typ == ArtNodeType::Node4 || self.typ == ArtNodeType::Node16,
            0 <= i < self.keys@.len(),
            self.keys@[i] == b,
        ensures
            self.child_slot(b) == Some(i),
            self.child_at(b) == Some(self.children@[i]->0),
    {
        let w = choose|w: int| 0 <= w < self.keys@.len() && self.keys@[w] == b;
        if w < i {
            assert(self.keys@[w] != self.keys@[i]);
        } else if i < w {
            assert(self.keys@[i] != self.keys@[w]);
        }
    }

    /// Grow to the next shape, keeping every child and the leaf.
    #[verifier::rlimit(100)]
    #[verifier::spinoff_prover]
    fn grow(&mut self)
        requires
            old(self).wf(),
            old(self).spec_count() == old(self).spec_max(),
            old(self).typ != ArtNodeType::Node256,
        ensures
            final(self).layout_wf(),
            forall|i: int|
                0 <= i < final(self).children@.len() && (
                #[trigger] final(self).children@[i]) is Some
                    ==> final(self).children@[i]->0.wf(),
            final(self).leaf == old(self).leaf,
            final(self).spec_count() == old(self).spec_count(),
            forall|b: u8| final(self).child_at(b) == old(self).child_at(b),
            final(self).typ == (match old(self).typ {
                ArtNodeType::Node4 => ArtNodeType::Node16,
                ArtNodeType::Node16 => ArtNodeType::Node48,
                _ => ArtNodeType::Node256,
            }),
            final(self).spec_count() < final(self).spec_max(),
    {
        proof {
            lemma_count_bounds(self.children@);
        }
        match self.typ {
            ArtNodeType::Node4 => {
                proof {
                    lemma_count_full(self.children@);
                }
                self.typ = ArtNodeType::Node16;
                proof {
                    assert forall|b: u8| final(self).child_at(b) == old(self).child_at(
                        b,
                    ) by {
                        assert(self.keys@ == old(self).keys@);
                    }
                }
            },
            ArtNodeType::Node16 => {
                proof {
                    lemma_count_full(self.children@);
                }
                let ghost oldn = *self;
                // 256-entry byte-to-slot table
                let mut table: Vec<u8> = Vec::new();
                let mut b: usize = 0;
                while b < 256
                    invariant
                        b <= 256,
                        table@.len() == b,
                        forall|x: int| 0 <= x < b ==> (#[trigger] table@[x]) == 0,
                    decreases 256 - b,
                {
                    table.push(0);
                    b = b + 1;
                }
                let n = self.keys.len();
                let mut i: usize = 0;
                while i < n
                    invariant
                        i <= n,
                        n == self.keys@.len() <= 16,
                        table@.len() == 256,
                        *self == oldn,
                        oldn.shape_wf(),
                        oldn.typ == ArtNodeType::Node16,
                        forall|x: int|
                            0 <= x < 256 ==> ((#[trigger] table@[x]) != 0 <==> exists|j: int|
                                0 <= j < i && self.keys@[j] == x),
                        forall|x: int|
                            0 <= x < 256 && (#[trigger] table@[x]) != 0 ==> 0 <= table@[x]
                                - 1 < i && self.keys@[table@[x] - 1] == x,
                    decreases n - i,
                {
                    let kb = self.keys[i];
                    table[kb as usize] = (i + 1) as u8;
                    proof {
                        assert forall|x: int|
                            0 <= x < 256 implies ((#[trigger] table@[x]) != 0
                            <==> exists|j: int| 0 <= j < i + 1 && self.keys@[j] == x) by {
                            if x == kb as int {
                                assert(self.keys@[i as int] == x);
                            }
                        }
                    }
                    i = i + 1;
                }
                // extend the child array to 48 fixed slots
                while self.children.len() < 48
                    invariant
                        self.typ == oldn.typ,
                        self.keys == oldn.keys,
                        self.leaf == oldn.leaf,
                        oldn.children@.len() <= self.children@.len() <= 48,
                        self.children@.subrange(0, oldn.children@.len() as int)
                            == oldn.children@,
                        forall|x: int|
                            oldn.children@.len() <= x < self.children@.len() ==> (
                            #[trigger] self.children@[x]) is None,
                    decreases 48 - self.children@.len(),
                {
                    proof {
                        assert(self.children@.subrange(0, oldn.children@.len() as int)
                            =~= oldn.children@);
                    }
                    self.children.push(None);
                    proof {
                        assert(self.children@.subrange(0, oldn.children@.len() as int)
                            =~= oldn.children@);
                    }
                }
                self.keys = table;
                self.typ = ArtNodeType::Node48;
                proof {
                    let news = *self;
                    assert(news.children@.subrange(0, oldn.children@.len() as int)
                        =~= oldn.children@);
                    assert forall|x: int|
                        0 <= x < oldn.children@.len() implies news.children@[x]
                        == oldn.children@[x] by {
                        assert(news.children@.subrange(0, oldn.children@.len() as int)[x]
                            == news.children@[x]);
                    }
                    // count is preserved: occupied prefix, empty tail
                    assert(count_some(news.children@) == oldn.children@.len()) by {
                        lemma_count_tail_none(news.children@, oldn.children@.len() as int);
                        lemma_count_full(oldn.children@);
                        assert(news.children@.subrange(0, oldn.children@.len() as int)
                            =~= oldn.children@);
                    }
                    // layout of the 48-slot shape
                    assert forall|b1: int, b2: int|
                        0 <= b1 < b2 < 256 && #[trigger] news.keys@[b1] != 0 && (
                        #[trigger] news.keys@[b2]) != 0 implies news.keys@[b1]
                        != news.keys@[b2] by {
                        if news.keys@[b1] == news.keys@[b2] {
                            assert(oldn.keys@[news.keys@[b1] - 1] == b1);
                            assert(oldn.keys@[news.keys@[b2] - 1] == b2);
                        }
                    }
                    assert forall|s: int|
                        0 <= s < news.children@.len() && (#[trigger] news.children@[s])
                            is Some implies exists|x: int|
                        0 <= x < 256 && #[trigger] news.keys@[x] == s + 1 by {
                        assert(s < oldn.children@.len());
                        let x = oldn.keys@[s];
                        assert(news.keys@[x as int] != 0);
                        assert(0 <= news.keys@[x as int] - 1 < oldn.keys@.len());
                        assert(oldn.keys@[news.keys@[x as int] - 1] == x as int);
                        assert(news.keys@[x as int] == s + 1) by {
                            let j = news.keys@[x as int] - 1;
                            assert(oldn.keys@[j] == x as int);
                        }
                    }
                    // children preserved, so the subtree invariant holds
                    assert forall|i2: int|
                        0 <= i2 < news.children@.len() && (#[trigger] news.children@[i2])
                            is Some implies news.children@[i2]->0.wf() by {
                        assert(i2 < oldn.children@.len() || news.children@[i2] is None);
                    }
                    // the child map is unchanged
                    assert forall|b: u8| news.child_at(b) == oldn.child_at(b) by {
                        if news.keys@[b as int] != 0 {
                            let j = news.keys@[b as int] - 1;
                            assert(oldn.keys@[j] == b as int);
                            oldn.lemma_dense_slot(b, j);
                        } else {
                            if exists|j: int|
                                0 <= j < oldn.keys@.len() && oldn.keys@[j] == b {
                                let j = choose|j: int|
                                    0 <= j < oldn.keys@.len() && oldn.keys@[j] == b;
                                assert(news.keys@[b as int] != 0);
                            }
                        }
                    }
                }
            },
            ArtNodeType::Node48 => {
                let ghost oldn = *self;
                let mut fresh: Vec<Option<Node>> = Vec::new();
                let mut fi: usize = 0;
                while fi < 256
                    invariant
                        fi <= 256,
                        fresh@.len() == fi,
                        forall|x: int| 0 <= x < fi ==> (#[trigger] fresh@[x]) is None,
                    decreases 256 - fi,
                {
                    fresh.push(None);
                    fi = fi + 1;
                }
                proof {
                    lemma_count_none(fresh@);
                }
                let mut b: usize = 0;
                while b < 256
                    invariant
                        b <= 256,
                        fresh@.len() == 256,
                        self.typ == oldn.typ,
                        self.keys == oldn.keys,
                        self.leaf == oldn.leaf,
                        self.children@.len() == oldn.children@.len(),
                        oldn.wf(),
                        oldn.typ == ArtNodeType::Node48,
                        // slots for bytes not yet visited are intact
                        forall|s: int|
                            0 <= s < self.children@.len() ==> #[trigger] self.children@[s]
                                == (if exists|x: int|
                                0 <= x < b && #[trigger] oldn.keys@[x] == s + 1 {
                                None::<Node>
                            } else {
                                oldn.children@[s]
                            }),
                        // visited bytes stand in the fresh array
                        forall|x: int|
                            0 <= x < 256 ==> #[trigger] fresh@[x] == (if x < b {
                                oldn.child_at(x as u8)
                            } else {
                                None::<Node>
                            }),
                        count_some(fresh@) + count_some(self.children@) == count_some(
                            oldn.children@,
                        ),
                    decreases 256 - b,
                {
                    let slot = self.keys[b];
                    let ghost pre_children = self.children@;
                    let ghost pre_fresh = fresh@;
                    if slot != 0 {
                        proof {
                            assert(oldn.keys@[b as int] == slot);
                            assert(self.children@[slot - 1] == oldn.children@[slot - 1]) by {
                                if exists|x: int|
                                    0 <= x < b && #[trigger] oldn.keys@[x] == slot as int {
                                    let x = choose|x: int|
                                        0 <= x < b && #[trigger] oldn.keys@[x]
                                            == slot as int;
                                    assert(oldn.keys@[x] != oldn.keys@[b as int]);
                                }
                            }
                        }
                        let c = self.children[(slot - 1) as usize].take();
                        fresh[b] = c;
                        proof {
                            lemma_count_update(pre_children, slot - 1, None);
                            lemma_count_update(pre_fresh, b as int, c);
                            assert(self.children@ == pre_children.update(slot - 1, None));
                            assert(fresh@ == pre_fresh.update(b as int, c));
                            assert forall|s: int|
                                0 <= s < self.children@.len() implies
                                #[trigger] self.children@[s] == (if exists|x: int|
                                0 <= x < b + 1 && #[trigger] oldn.keys@[x] == s + 1 {
                                None::<Node>
                            } else {
                                oldn.children@[s]
                            }) by {
                                if s == slot - 1 {
                                    assert(oldn.keys@[b as int] == s + 1);
                                } else {
                                    assert(self.children@[s] == pre_children[s]);
                                    if exists|x: int|
                                        0 <= x < b + 1 && #[trigger] oldn.keys@[x] == s
                                            + 1 {
                                        let x = choose|x: int|
                                            0 <= x < b + 1 && #[trigger] oldn.keys@[x] == s
                                                + 1;
                                        assert(x < b);
                                    }
                                }
                            }
                            assert forall|x: int|
                                0 <= x < 256 implies #[trigger] fresh@[x] == (if x < b
                                + 1 {
                                oldn.child_at(x as u8)
                            } else {
                                None::<Node>
                            }) by {
                                if x == b as int {
                                    assert(oldn.child_at(b as u8) == Some(
                                        oldn.children@[slot - 1]->0,
                                    ));
                                } else {
                                    assert(fresh@[x] == pre_fresh[x]);
                                }
                            }
                        }
                    } else {
                        proof {
                            assert forall|x: int|
                                0 <= x < 256 implies #[trigger] fresh@[x] == (if x < b
                                + 1 {
                                oldn.child_at(x as u8)
                            } else {
                                None::<Node>
                            }) by {
                                if x == b as int {
                                    assert(oldn.keys@[x] == 0);
                                    assert(oldn.child_at(x as u8) is None);
                                }
                            }
                            assert forall|s: int|
                                0 <= s < self.children@.len() implies
                                #[trigger] self.children@[s] == (if exists|x: int|
                                0 <= x < b + 1 && #[trigger] oldn.keys@[x] == s + 1 {
                                None::<Node>
                            } else {
                                oldn.children@[s]
                            }) by {
                                if exists|x: int|
                                    0 <= x < b + 1 && #[trigger] oldn.keys@[x] == s + 1 {
                                    let x = choose|x: int|
                                        0 <= x < b + 1 && #[trigger] oldn.keys@[x] == s + 1;
                                    assert(x < b);
                                }
                            }
                        }
                    }
                    b = b + 1;
                }
                proof {
                    assert forall|s: int|
                        0 <= s < self.children@.len() implies (#[trigger] self.children@[s])
                            is None by {
                        if oldn.children@[s] is Some {
                            let x = choose|x: int|
                                0 <= x < 256 && #[trigger] oldn.keys@[x] == s + 1;
                            assert(exists|x2: int|
                                0 <= x2 < 256 && #[trigger] oldn.keys@[x2] == s + 1);
                        }
                    }
                    lemma_count_none(self.children@);
                    assert(count_some(fresh@) == count_some(oldn.children@));
                }
                self.keys = Vec::new();
                self.children = fresh;
                self.typ = ArtNodeType::Node256;
                proof {
                    let news = *self;
                    assert forall|x: u8| news.child_at(x) == oldn.child_at(x) by {
                        assert(news.children@[x as int] == oldn.child_at(x));
                        if oldn.child_at(x) is Some {
                            assert(news.children@[x as int] is Some);
                        }
                    }
                    assert forall|i2: int|
                        0 <= i2 < news.children@.len() && (#[trigger] news.children@[i2])
                            is Some implies news.children@[i2]->0.wf() by {
                        assert(news.children@[i2] == oldn.child_at(i2 as u8));
                        let sl = oldn.child_slot(i2 as u8)->0;
                        assert(oldn.children@[sl] is Some && oldn.children@[sl]->0.wf());
                    }
                }
            },
            ArtNodeType::Node256 => {
                proof {
                    assert(false);
                }
            },
        }
    }


    /// Shape-specific insertion for `add_child`.
    #[verifier::rlimit(100)]
    #[verifier::spinoff_prover]
    fn add_child4(&mut self, key: u8, node: Node)
        requires
            old(self).layout_wf(),
            forall|i: int|
                0 <= i < old(self).children@.len() && (
                #[trigger] old(self).children@[i]) is Some ==> old(
                self,
            ).children@[i]->0.wf(),
            node.wf(),
            old(self).child_at(key) is None,
            old(self).spec_count() < old(self).spec_max(),
            old(self).typ == ArtNodeType::Node4 || old(self).spec_min() <= old(
                self,
            ).spec_count() + 1,
            old(self).typ == ArtNodeType::Node4,
        ensures
            final(self).wf(),
            final(self).leaf == old(self).leaf,
            final(self).typ == old(self).typ,
            final(self).spec_count() == old(self).spec_count() + 1,
            forall|b: u8| final(self).child_at(b) == (if b == key {
                Some(node)
            } else {
                old(self).child_at(b)
            }),
    {
        let ghost mid = *self;
        proof {
            lemma_count_bounds(mid.children@);
        }
                proof {
                    lemma_count_full(self.children@);
                    if exists|i: int| 0 <= i < mid.keys@.len() && mid.keys@[i] == key {
                        let i = choose|i: int|
                            0 <= i < mid.keys@.len() && mid.keys@[i] == key;
                        mid.lemma_dense_slot(key, i);
                        assert(false);
                    }
                }
                let n = self.keys.len();
                let mut idx: usize = 0;
                while idx < n && self.keys[idx] < key
                    invariant
                        idx <= n,
                        n == self.keys@.len(),
                        *self == mid,
                        forall|j: int| 0 <= j < idx ==> (#[trigger] self.keys@[j]) < key,
                    decreases n - idx,
                {
                    idx = idx + 1;
                }
                self.keys.insert(idx, key);
                self.children.insert(idx, Some(node));
                proof {
                    lemma_count_insert(mid.children@, idx as int, Some(node));
                    let news = *self;
                    // sortedness: entries before idx are below key, the
                    // rest are above it (distinctness rules out equality)
                    assert forall|i: int, j: int|
                        0 <= i < j < news.keys@.len() implies (#[trigger] news.keys@[i]) < (
                        #[trigger] news.keys@[j]) by {
                        if i == idx as int {
                            assert(mid.keys@[j - 1] >= key);
                            assert(mid.keys@[j - 1] != key);
                        } else if j == idx as int {
                            assert(mid.keys@[i] < key);
                        } else if i < idx as int && j > idx as int {
                            assert(mid.keys@[i] < key);
                            assert(mid.keys@[j - 1] >= key && mid.keys@[j - 1] != key);
                        } else if j < idx as int {
                            assert(mid.keys@[i] < mid.keys@[j]);
                        } else {
                            assert(mid.keys@[i - 1] < mid.keys@[j - 1]);
                        }
                    }
                    assert forall|b: u8| news.child_at(b) == (if b == key {
                        Some(node)
                    } else {
                        mid.child_at(b)
                    }) by {
                        if b == key {
                            news.lemma_dense_slot(b, idx as int);
                        } else {
                            if exists|i: int|
                                0 <= i < mid.keys@.len() && mid.keys@[i] == b {
                                let i = choose|i: int|
                                    0 <= i < mid.keys@.len() && mid.keys@[i] == b;
                                mid.lemma_dense_slot(b, i);
                                if i < idx as int {
                                    assert(news.keys@[i] == b);
                                    news.lemma_dense_slot(b, i);
                                } else {
                                    assert(news.keys@[i + 1] == b);
                                    news.lemma_dense_slot(b, i + 1);
                                }
                            } else {
                                if exists|i: int|
                                    0 <= i < news.keys@.len() && news.keys@[i] == b {
                                    let i = choose|i: int|
                                        0 <= i < news.keys@.len() && news.keys@[i] == b;
                                    if i < idx as int {
                                        assert(mid.keys@[i] == b);
                                    } else if i > idx as int {
                                        assert(mid.keys@[i - 1] == b);
                                    }
                                    assert(false);
                                }
                            }
                        }
                    }
                }
    }

    /// Shape-specific insertion for `add_child`.
    #[verifier::rlimit(100)]
    #[verifier::spinoff_prover]
    fn add_child16(&mut self, key: u8, node: Node)
        requires
            old(self).layout_wf(),
            forall|i: int|
                0 <= i < old(self).children@.len() && (
                #[trigger] old(self).children@[i]) is Some ==> old(
                self,
            ).children@[i]->0.wf(),
            node.wf(),
            old(self).child_at(key) is None,
            old(self).spec_count() < old(self).spec_max(),
            old(self).typ == ArtNodeType::Node4 || old(self).spec_min() <= old(
                self,
            ).spec_count() + 1,
            old(self).typ == ArtNodeType::Node16,
        ensures
            final(self).wf(),
            final(self).leaf == old(self).leaf,
            final(self).typ == old(self).typ,
            final(self).spec_count() == old(self).spec_count() + 1,
            forall|b: u8| final(self).child_at(b) == (if b == key {
                Some(node)
            } else {
                old(self).child_at(b)
            }),
    {
        let ghost mid = *self;
        proof {
            lemma_count_bounds(mid.children@);
        }
                proof {
                    lemma_count_full(self.children@);
                    if exists|i: int| 0 <= i < mid.keys@.len() && mid.keys@[i] == key {
                        let i = choose|i: int|
                            0 <= i < mid.keys@.len() && mid.keys@[i] == key;
                        mid.lemma_dense_slot(key, i);
                        assert(false);
                    }
                }
                self.keys.push(key);
                self.children.push(Some(node));
                proof {
                    let news = *self;
                    assert(news.children@ == mid.children@.push(Some(node)));
                    assert(news.children@.drop_last() =~= mid.children@);
                    assert(count_some(news.children@) == count_some(mid.children@) + 1);
                    assert forall|b: u8| news.child_at(b) == (if b == key {
                        Some(node)
                    } else {
                        mid.child_at(b)
                    }) by {
                        if b == key {
                            news.lemma_dense_slot(b, news.keys@.len() - 1);
                        } else {
                            if exists|i: int|
                                0 <= i < mid.keys@.len() && mid.keys@[i] == b {
                                let i = choose|i: int|
                                    0 <= i < mid.keys@.len() && mid.keys@[i] == b;
                                mid.lemma_dense_slot(b, i);
                                news.lemma_dense_slot(b, i);
                            } else {
                                if exists|i: int|
                                    0 <= i < news.keys@.len() && news.keys@[i] == b {
                                    let i = choose|i: int|
                                        0 <= i < news.keys@.len() && news.keys@[i] == b;
                                    assert(mid.keys@[i] == b);
                                    assert(false);
                                }
                            }
                        }
                    }
                }
    }

    /// Shape-specific insertion for `add_child`.
    #[verifier::rlimit(100)]
    #[verifier::spinoff_prover]
    fn add_child48(&mut self, key: u8, node: Node)
        requires
            old(self).layout_wf(),
            forall|i: int|
                0 <= i < old(self).children@.len() && (
                #[trigger] old(self).children@[i]) is Some ==> old(
                self,
            ).children@[i]->0.wf(),
            node.wf(),
            old(self).child_at(key) is None,
            old(self).spec_count() < old(self).spec_max(),
            old(self).typ == ArtNodeType::Node4 || old(self).spec_min() <= old(
                self,
            ).spec_count() + 1,
            old(self).typ == ArtNodeType::Node48,
        ensures
            final(self).wf(),
            final(self).leaf == old(self).leaf,
            final(self).typ == old(self).typ,
            final(self).spec_count() == old(self).spec_count() + 1,
            forall|b: u8| final(self).child_at(b) == (if b == key {
                Some(node)
            } else {
                old(self).child_at(b)
            }),
    {
        let ghost mid = *self;
        proof {
            lemma_count_bounds(mid.children@);
        }
                let cap = self.children.len();
                let mut s: usize = 0;
                let mut free: Option<usize> = None;
                while s < cap
                    invariant
                        s <= cap,
                        cap == self.children@.len(),
                        *self == mid,
                        match free {
                            Some(f) => f < cap && self.children@[f as int] is None,
                            None => forall|x: int| 0 <= x < s ==> (
                            #[trigger] self.children@[x]) is Some,
                        },
                    decreases cap - s,
                {
                    if free.is_none() && self.children[s].is_none() {
                        free = Some(s);
                    }
                    s = s + 1;
                }
                let slot: usize = match free {
                    Some(f) => {
                        self.children[f] = Some(node);
                        proof {
                            lemma_count_update(mid.children@, f as int, Some(node));
                        }
                        f
                    },
                    None => {
                        proof {
                            lemma_count_full(mid.children@);
                        }
                        self.children.push(Some(node));
                        proof {
                            assert(self.children@.drop_last() =~= mid.children@);
                            assert(count_some(self.children@) == count_some(mid.children@)
                                + 1);
                        }
                        self.children.len() - 1
                    },
                };
                let ghost mid2 = *self;
                self.keys[key as usize] = (slot + 1) as u8;
                proof {
                    let news = *self;
                    assert(news.children@ == mid2.children@);
                    assert(news.keys@ == mid.keys@.update(key as int, (slot + 1) as u8));
                    assert(mid.keys@[key as int] == 0);
                    // layout: assignment, injectivity, no orphans
                    assert forall|b: int|
                        0 <= b < 256 && #[trigger] news.keys@[b] != 0 implies news.keys@[b]
                            <= news.children@.len() && news.children@[news.keys@[b]
                            - 1] is Some by {
                        if b != key as int {
                            assert(mid.keys@[b] != 0);
                            assert(mid.keys@[b] - 1 != slot as int || mid.children@[mid.keys@[b] - 1] is Some);
                        }
                    }
                    assert forall|b1: int, b2: int|
                        0 <= b1 < b2 < 256 && #[trigger] news.keys@[b1] != 0 && (
                        #[trigger] news.keys@[b2]) != 0 implies news.keys@[b1]
                        != news.keys@[b2] by {
                        if b1 == key as int || b2 == key as int {
                            let other = if b1 == key as int {
                                b2
                            } else {
                                b1
                            };
                            if mid.keys@[other] == slot + 1 {
                                assert(mid.children@[slot as int] is Some);
                            }
                        }
                    }
                    assert forall|s2: int|
                        0 <= s2 < news.children@.len() && (#[trigger] news.children@[s2])
                            is Some implies exists|b: int|
                        0 <= b < 256 && #[trigger] news.keys@[b] == s2 + 1 by {
                        if s2 == slot as int {
                            assert(news.keys@[key as int] == s2 + 1);
                        } else {
                            assert(mid.children@[s2] is Some);
                            let b = choose|b: int|
                                0 <= b < 256 && #[trigger] mid.keys@[b] == s2 + 1;
                            assert(news.keys@[b] == s2 + 1);
                        }
                    }
                    // the child map gains exactly `key`
                    assert forall|b: u8| news.child_at(b) == (if b == key {
                        Some(node)
                    } else {
                        mid.child_at(b)
                    }) by {
                        if b != key {
                            if mid.keys@[b as int] != 0 {
                                assert(mid.keys@[b as int] - 1 != slot as int
                                    || mid.children@[mid.keys@[b as int] - 1] is Some);
                                assert(news.children@[news.keys@[b as int] - 1]
                                    == mid.children@[mid.keys@[b as int] - 1]);
                            }
                        }
                    }
                }
    }

    /// Shape-specific insertion for `add_child`.
    #[verifier::rlimit(100)]
    #[verifier::spinoff_prover]
    fn add_child256(&mut self, key: u8, node: Node)
        requires
            old(self).layout_wf(),
            forall|i: int|
                0 <= i < old(self).children@.len() && (
                #[trigger] old(self).children@[i]) is Some ==> old(
                self,
            ).children@[i]->0.wf(),
            node.wf(),
            old(self).child_at(key) is None,
            old(self).spec_count() < old(self).spec_max(),
            old(self).typ == ArtNodeType::Node4 || old(self).spec_min() <= old(
                self,
            ).spec_count() + 1,
            old(self).typ == ArtNodeType::Node256,
        ensures
            final(self).wf(),
            final(self).leaf == old(self).leaf,
            final(self).typ == old(self).typ,
            final(self).spec_count() == old(self).spec_count() + 1,
            forall|b: u8| final(self).child_at(b) == (if b == key {
                Some(node)
            } else {
                old(self).child_at(b)
            }),
    {
        let ghost mid = *self;
        proof {
            lemma_count_bounds(mid.children@);
        }
                proof {
                    assert(mid.children@[key as int] is None);
                }
                self.children[key as usize] = Some(node);
                proof {
                    lemma_count_update(mid.children@, key as int, Some(node));
                    let news = *self;
                    assert forall|b: u8| news.child_at(b) == (if b == key {
                        Some(node)
                    } else {
                        mid.child_at(b)
                    }) by {}
                }
    }

    /// Record `node` as the child for key byte `key`, growing first when
    /// the current shape is out of room.
    pub fn add_child(&mut self, key: u8, node: Node)
        requires
            old(self).wf(),
            node.wf(),
            old(self).child_at(key) is None,
            old(self).spec_count() < 256,
        ensures
            final(self).wf(),
            final(self).leaf == old(self).leaf,
            final(self).spec_count() == old(self).spec_count() + 1,
            forall|b: u8| final(self).child_at(b) == (if b == key {
                Some(node)
            } else {
                old(self).child_at(b)
            }),
            final(self).typ == (if old(self).spec_count() == old(self).spec_max() {
                match old(self).typ {
                    ArtNodeType::Node4 => ArtNodeType::Node16,
                    ArtNodeType::Node16 => ArtNodeType::Node48,
                    _ => ArtNodeType::Node256,
                }
            } else {
                old(self).typ
            }),
    {
        proof {
            lemma_count_bounds(self.children@);
        }
        if self.is_full() {
            self.grow();
        }
        match self.typ {
            ArtNodeType::Node4 => self.add_child4(key, node),
            ArtNodeType::Node16 => self.add_child16(key, node),
            ArtNodeType::Node48 => self.add_child48(key, node),
            ArtNodeType::Node256 => self.add_child256(key, node),
        }
    }

    /// Tear the node down into its (byte, child) pairs, in some order.
    /// Afterwards the node holds no children.
    #[verifier::rlimit(100)]
    #[verifier::spinoff_prover]
    fn take_pairs(&mut self) -> (ps: Vec<(u8, Node)>)
        requires
            old(self).layout_wf(),
            forall|i: int|
                0 <= i < old(self).children@.len() && (
                #[trigger] old(self).children@[i]) is Some ==> old(
                self,
            ).children@[i]->0.wf(),
        ensures
            ps@.len() == old(self).spec_count(),
            forall|p: int, q: int| 0 <= p < q < ps@.len() ==> (#[trigger] ps@[p]).0 != (
            #[trigger] ps@[q]).0,
            forall|p: int| 0 <= p < ps@.len() ==> (#[trigger] ps@[p]).1.wf(),
            forall|b: u8|
                #[trigger] old(self).child_at(b) == (if has_pair(ps@, b) {
                    Some(pair_node(ps@, b))
                } else {
                    None
                }),
            final(self).leaf == old(self).leaf,
    {
        let ghost oldn = *self;
        let mut pairs: Vec<(u8, Node)> = Vec::new();
        match self.typ {
            ArtNodeType::Node4 | ArtNodeType::Node16 => {
                proof {
                    lemma_count_full(oldn.children@);
                }
                while self.keys.len() > 0
                    invariant
                        self.typ == oldn.typ,
                        self.leaf == oldn.leaf,
                        oldn.layout_wf(),
                        oldn.typ == ArtNodeType::Node4 || oldn.typ == ArtNodeType::Node16,
                        forall|i: int|
                            0 <= i < oldn.children@.len() && (
                            #[trigger] oldn.children@[i]) is Some
                                ==> oldn.children@[i]->0.wf(),
                        self.keys@ == oldn.keys@.subrange(0, self.keys@.len() as int),
                        self.children@ == oldn.children@.subrange(
                            0,
                            self.keys@.len() as int,
                        ),
                        pairs@.len() + self.keys@.len() == oldn.keys@.len(),
                        forall|p: int| 0 <= p < pairs@.len() ==> #[trigger] pairs@[p] == (
                            oldn.keys@[oldn.keys@.len() - 1 - p],
                            oldn.children@[oldn.keys@.len() - 1 - p]->0,
                        ),
                    decreases self.keys@.len(),
                {
                    let ghost kl = self.keys@.len() as int;
                    let kb = self.keys.pop();
                    let child = self.children.pop();
                    proof {
                        assert(self.keys@ =~= oldn.keys@.subrange(0, kl - 1));
                        assert(self.children@ =~= oldn.children@.subrange(0, kl - 1));
                        assert(oldn.keys@.subrange(0, kl)[kl - 1] == oldn.keys@[kl - 1]);
                        assert(oldn.children@.subrange(0, kl)[kl - 1] == oldn.children@[kl
                            - 1]);
                        assert(oldn.children@[kl - 1] is Some);
                    }
                    match child {
                        Some(copt) => match copt {
                            Some(node) => {
                                pairs.push((kb.unwrap(), node));
                                proof {
                                    assert(pairs@[pairs@.len() - 1] == (
                                        oldn.keys@[kl - 1],
                                        oldn.children@[kl - 1]->0,
                                    ));
                                }
                            },
                            None => {
                                proof {
                                    assert(false);
                                }
                            },
                        },
                        None => {
                            proof {
                                assert(false);
                            }
                        },
                    }
                }
                proof {
                    assert(pairs@.len() == oldn.keys@.len());
                    assert(oldn.spec_count() == oldn.children@.len());
                    assert forall|p: int, q: int|
                        0 <= p < q < pairs@.len() implies (#[trigger] pairs@[p]).0 != (
                        #[trigger] pairs@[q]).0 by {
                        let n = oldn.keys@.len() as int;
                        assert(pairs@[p].0 == oldn.keys@[n - 1 - p]);
                        assert(pairs@[q].0 == oldn.keys@[n - 1 - q]);
                    }
                    assert forall|b: u8| #[trigger] oldn.child_at(b) == (if has_pair(
                        pairs@,
                        b,
                    ) {
                        Some(pair_node(pairs@, b))
                    } else {
                        None
                    }) by {
                        let n = oldn.keys@.len() as int;
                        if has_pair(pairs@, b) {
                            let p = choose|p: int|
                                0 <= p < pairs@.len() && pairs@[p].0 == b;
                            oldn.lemma_dense_slot(b, n - 1 - p);
                            let p2 = choose|i: int|
                                0 <= i < pairs@.len() && pairs@[i].0 == b;
                            if p2 != p {
                                assert(pairs@[p2].0 == oldn.keys@[n - 1 - p2]);
                                assert(pairs@[p].0 == oldn.keys@[n - 1 - p]);
                            }
                            assert(pair_node(pairs@, b) == oldn.children@[n - 1 - p2]->0);
                        } else {
                            if exists|j: int|
                                0 <= j < oldn.keys@.len() && oldn.keys@[j] == b {
                                let j = choose|j: int|
                                    0 <= j < oldn.keys@.len() && oldn.keys@[j] == b;
                                assert(pairs@[n - 1 - j].0 == b);
                                assert(false);
                            }
                        }
                    }
                }
            },
            ArtNodeType::Node48 => {
                let mut b: usize = 0;
                while b < 256
                    invariant
                        b <= 256,
                        self.typ == oldn.typ,
                        self.keys == oldn.keys,
                        self.leaf == oldn.leaf,
                        self.children@.len() == oldn.children@.len(),
                        oldn.layout_wf(),
                        oldn.typ == ArtNodeType::Node48,
                        forall|i: int|
                            0 <= i < oldn.children@.len() && (
                            #[trigger] oldn.children@[i]) is Some
                                ==> oldn.children@[i]->0.wf(),
                        forall|s: int|
                            0 <= s < self.children@.len() ==> #[trigger] self.children@[s]
                                == (if exists|x: int|
                                0 <= x < b && #[trigger] oldn.keys@[x] == s + 1 {
                                None::<Node>
                            } else {
                                oldn.children@[s]
                            }),
                        forall|p: int| 0 <= p < pairs@.len() ==> {
                            let e = #[trigger] pairs@[p];
                            (e.0 as int) < b && oldn.child_at(e.0) == Some(e.1)
                        },
                        forall|p: int, q: int|
                            0 <= p < q < pairs@.len() ==> (#[trigger] pairs@[p]).0 < (
                            #[trigger] pairs@[q]).0,
                        forall|x: int|
                            0 <= x < b && #[trigger] oldn.keys@[x] != 0 ==> exists|p: int|
                                0 <= p < pairs@.len() && ((#[trigger] pairs@[p]).0 as int)
                                    == x,
                        count_some(self.children@) + pairs@.len() == count_some(
                            oldn.children@,
                        ),
                    decreases 256 - b,
                {
                    let slot = self.keys[b];
                    let ghost pre_children = self.children@;
                    let ghost pre_pairs = pairs@;
                    if slot != 0 {
                        proof {
                            assert(oldn.keys@[b as int] == slot);
                            assert(self.children@[slot - 1] == oldn.children@[slot - 1]) by {
                                if exists|x: int|
                                    0 <= x < b && #[trigger] oldn.keys@[x] == slot as int {
                                    let x = choose|x: int|
                                        0 <= x < b && #[trigger] oldn.keys@[x]
                                            == slot as int;
                                    assert(oldn.keys@[x] != oldn.keys@[b as int]);
                                }
                            }
                        }
                        let c = self.children[(slot - 1) as usize].take();
                        match c {
                            Some(node) => {
                                pairs.push((b as u8, node));
                                proof {
                                    lemma_count_update(pre_children, slot - 1, None);
                                    assert(self.children@ == pre_children.update(
                                        slot - 1,
                                        None,
                                    ));
                                    assert(oldn.child_at(b as u8) == Some(
                                        oldn.children@[slot - 1]->0,
                                    ));
                                    assert forall|s: int|
                                        0 <= s < self.children@.len() implies
                                        #[trigger] self.children@[s] == (if exists|x: int|
                                        0 <= x < b + 1 && #[trigger] oldn.keys@[x] == s
                                            + 1 {
                                        None::<Node>
                                    } else {
                                        oldn.children@[s]
                                    }) by {
                                        if s == slot - 1 {
                                            assert(oldn.keys@[b as int] == s + 1);
                                        } else {
                                            if exists|x: int|
                                                0 <= x < b + 1 && #[trigger] oldn.keys@[x]
                                                    == s + 1 {
                                                let x = choose|x: int|
                                                    0 <= x < b + 1
                                                        && #[trigger] oldn.keys@[x] == s
                                                        + 1;
                                                assert(x < b);
                                            }
                                        }
                                    }
                                    assert forall|x: int|
                                        0 <= x < b + 1 && #[trigger] oldn.keys@[x]
                                            != 0 implies exists|p: int|
                                        0 <= p < pairs@.len() && ((
                                        #[trigger] pairs@[p]).0 as int) == x by {
                                        if x == b as int {
                                            assert((pairs@[pairs@.len() - 1].0 as int)
                                                == x);
                                        } else {
                                            let p = choose|p: int|
                                                0 <= p < pre_pairs.len() && ((
                                                #[trigger] pre_pairs[p]).0 as int) == x;
                                            assert(pairs@[p] == pre_pairs[p]);
                                        }
                                    }
                                }
                            },
                            None => {
                                proof {
                                    assert(false);
                                }
                            },
                        }
                    } else {
                        proof {
                            assert forall|s: int|
                                0 <= s < self.children@.len() implies
                                #[trigger] self.children@[s] == (if exists|x: int|
                                0 <= x < b + 1 && #[trigger] oldn.keys@[x] == s + 1 {
                                None::<Node>
                            } else {
                                oldn.children@[s]
                            }) by {
                                if exists|x: int|
                                    0 <= x < b + 1 && #[trigger] oldn.keys@[x] == s + 1 {
                                    let x = choose|x: int|
                                        0 <= x < b + 1 && #[trigger] oldn.keys@[x] == s + 1;
                                    assert(x < b);
                                }
                            }
                        }
                    }
                    b = b + 1;
                }
                proof {
                    assert forall|s: int|
                        0 <= s < self.children@.len() implies (#[trigger] self.children@[s])
                            is None by {
                        if oldn.children@[s] is Some {
                            let x = choose|x: int|
                                0 <= x < 256 && #[trigger] oldn.keys@[x] == s + 1;
                            assert(exists|x2: int|
                                0 <= x2 < 256 && #[trigger] oldn.keys@[x2] == s + 1);
                        }
                    }
                    lemma_count_none(self.children@);

                    assert forall|b2: u8| #[trigger] oldn.child_at(b2) == (if has_pair(
                        pairs@,
                        b2,
                    ) {
                        Some(pair_node(pairs@, b2))
                    } else {
                        None
                    }) by {
                        if has_pair(pairs@, b2) {
                            let p = choose|p: int|
                                0 <= p < pairs@.len() && pairs@[p].0 == b2;
                            let p2 = choose|i: int|
                                0 <= i < pairs@.len() && pairs@[i].0 == b2;
                            if p2 != p {
                                assert(pairs@[p2].0 != pairs@[p].0);
                            }
                        } else {
                            if oldn.keys@[b2 as int] != 0 {
                                assert(exists|p: int|
                                    0 <= p < pairs@.len() && ((#[trigger] pairs@[p]).0
                                        as int) == b2 as int);
                                let p = choose|p: int|
                                    0 <= p < pairs@.len() && ((#[trigger] pairs@[p]).0
                                        as int) == b2 as int;
                                assert(pairs@[p].0 == b2);
                                assert(false);
                            }
                        }
                    }
                }
            },
            ArtNodeType::Node256 => {
                let mut b: usize = 0;
                while b < 256
                    invariant
                        b <= 256,
                        self.typ == oldn.typ,
                        self.leaf == oldn.leaf,
                        self.children@.len() == 256,
                        oldn.layout_wf(),
                        oldn.typ == ArtNodeType::Node256,
                        forall|i: int|
                            0 <= i < oldn.children@.len() && (
                            #[trigger] oldn.children@[i]) is Some
                                ==> oldn.children@[i]->0.wf(),
                        forall|s: int|
                            0 <= s < 256 ==> #[trigger] self.children@[s] == (if s < b {
                                None::<Node>
                            } else {
                                oldn.children@[s]
                            }),
                        forall|p: int| 0 <= p < pairs@.len() ==> {
                            let e = #[trigger] pairs@[p];
                            (e.0 as int) < b && oldn.child_at(e.0) == Some(e.1)
                        },
                        forall|p: int, q: int|
                            0 <= p < q < pairs@.len() ==> (#[trigger] pairs@[p]).0 < (
                            #[trigger] pairs@[q]).0,
                        forall|x: int|
                            0 <= x < b && (#[trigger] oldn.children@[x]) is Some
                                ==> exists|p: int|
                                0 <= p < pairs@.len() && ((#[trigger] pairs@[p]).0 as int)
                                    == x,
                        count_some(self.children@) + pairs@.len() == count_some(
                            oldn.children@,
                        ),
                    decreases 256 - b,
                {
                    let ghost pre_children = self.children@;
                    let ghost pre_pairs = pairs@;
                    let c = self.children[b].take();
                    proof {
                        lemma_count_update(pre_children, b as int, None);
                        assert(self.children@ == pre_children.update(b as int, None));
                    }
                    match c {
                        Some(node) => {
                            pairs.push((b as u8, node));
                            proof {
                                assert(oldn.child_at(b as u8) == Some(
                                    oldn.children@[b as int]->0,
                                ));
                                assert forall|x: int|
                                    0 <= x < b + 1 && (#[trigger] oldn.children@[x])
                                        is Some implies exists|p: int|
                                    0 <= p < pairs@.len() && ((#[trigger] pairs@[p]).0
                                        as int) == x by {
                                    if x == b as int {
                                        assert((pairs@[pairs@.len() - 1].0 as int) == x);
                                    } else {
                                        let p = choose|p: int|
                                            0 <= p < pre_pairs.len() && ((
                                            #[trigger] pre_pairs[p]).0 as int) == x;
                                        assert(pairs@[p] == pre_pairs[p]);
                                    }
                                }
                            }
                        },
                        None => {},
                    }
                    b = b + 1;
                }
                proof {
                    lemma_count_none(self.children@);

                    assert forall|b2: u8| #[trigger] oldn.child_at(b2) == (if has_pair(
                        pairs@,
                        b2,
                    ) {
                        Some(pair_node(pairs@, b2))
                    } else {
                        None
                    }) by {
                        if has_pair(pairs@, b2) {
                            let p = choose|p: int|
                                0 <= p < pairs@.len() && pairs@[p].0 == b2;
                            let p2 = choose|i: int|
                                0 <= i < pairs@.len() && pairs@[i].0 == b2;
                            if p2 != p {
                                assert(pairs@[p2].0 != pairs@[p].0);
                            }
                        } else {
                            if oldn.children@[b2 as int] is Some {
                                assert(exists|p: int|
                                    0 <= p < pairs@.len() && ((#[trigger] pairs@[p]).0
                                        as int) == b2 as int);
                                let p = choose|p: int|
                                    0 <= p < pairs@.len() && ((#[trigger] pairs@[p]).0
                                        as int) == b2 as int;
                                assert(pairs@[p].0 == b2);
                                assert(false);
                            }
                        }
                    }
                }
            },
        }
        pairs
    }

    /// Build the smallest fitting node out of distinct (byte, child)
    /// pairs and a leaf.
    #[verifier::rlimit(100)]
    #[verifier::spinoff_prover]
    fn from_pairs(pairs: Vec<(u8, Node)>, leaf: Option<Leaf>) -> (r: Node)
        requires
            pairs@.len() < 256,
            forall|p: int, q: int| 0 <= p < q < pairs@.len() ==> (#[trigger] pairs@[p]).0
                != (#[trigger] pairs@[q]).0,
            forall|p: int| 0 <= p < pairs@.len() ==> (#[trigger] pairs@[p]).1.wf(),
        ensures
            r.wf(),
            r.leaf == leaf,
            r.spec_count() == pairs@.len(),
            forall|b: u8| r.child_at(b) == (if has_pair(pairs@, b) {
                Some(pair_node(pairs@, b))
            } else {
                None
            }),
            r.typ == (if pairs@.len() <= 4 {
                ArtNodeType::Node4
            } else if pairs@.len() <= 16 {
                ArtNodeType::Node16
            } else if pairs@.len() <= 48 {
                ArtNodeType::Node48
            } else {
                ArtNodeType::Node256
            }),
    {
        let ghost orig = pairs@;
        let total = pairs.len();
        let mut rest = pairs;
        let mut n = Node::new_node4();
        n.leaf = leaf;
        proof {
            assert(orig.take(total as int) =~= orig);
            assert(n.typ == ArtNodeType::Node4 && n.keys@.len() == 0 && n.children@.len()
                == 0);
            assert(n.wf());
            assert forall|b: u8| n.child_at(b) is None by {
                assert(n.child_slot(b) is None);
            }
        }
        while rest.len() > 0
            invariant
                rest@.len() <= total,
                total == orig.len(),
                total < 256,
                rest@ == orig.take(rest@.len() as int),
                forall|p: int, q: int| 0 <= p < q < orig.len() ==> (#[trigger] orig[p]).0
                    != (#[trigger] orig[q]).0,
                forall|p: int| 0 <= p < orig.len() ==> (#[trigger] orig[p]).1.wf(),
                n.wf(),
                n.leaf == leaf,
                n.spec_count() == total - rest@.len(),
                forall|b: u8| n.child_at(b) == (if exists|p: int|
                    rest@.len() <= p < orig.len() && (#[trigger] orig[p]).0 == b {
                    Some(
                        orig[choose|p: int|
                            rest@.len() <= p < orig.len() && (#[trigger] orig[p]).0
                                == b].1,
                    )
                } else {
                    None::<Node>
                }),
                n.typ == (if n.spec_count() <= 4 {
                    ArtNodeType::Node4
                } else if n.spec_count() <= 16 {
                    ArtNodeType::Node16
                } else if n.spec_count() <= 48 {
                    ArtNodeType::Node48
                } else {
                    ArtNodeType::Node256
                }),
            decreases rest@.len(),
        {
            let ghost pre_rest = rest@;
            let popped = rest.pop();
            let (pb, pnode) = popped.unwrap();
            proof {
                assert(rest@ =~= orig.take(rest@.len() as int));
                assert(orig.take(pre_rest.len() as int)[pre_rest.len() - 1]
                    == orig[pre_rest.len() - 1]);
                assert((pb, pnode) == orig[pre_rest.len() - 1]);
                // the byte is not yet recorded
                if exists|p: int|
                    pre_rest.len() <= p < orig.len() && (#[trigger] orig[p]).0 == pb {
                    let p = choose|p: int|
                        pre_rest.len() <= p < orig.len() && (#[trigger] orig[p]).0 == pb;
                    assert(orig[pre_rest.len() - 1].0 != orig[p].0);
                }
                assert(n.child_at(pb) is None);
            }
            n.add_child(pb, pnode);
            proof {
                assert forall|b: u8| n.child_at(b) == (if exists|p: int|
                    rest@.len() <= p < orig.len() && (#[trigger] orig[p]).0 == b {
                    Some(
                        orig[choose|p: int|
                            rest@.len() <= p < orig.len() && (#[trigger] orig[p]).0
                                == b].1,
                    )
                } else {
                    None::<Node>
                }) by {
                    if b == pb {
                        assert(orig[rest@.len() as int].0 == b);
                        let p = choose|p: int|
                            rest@.len() <= p < orig.len() && (#[trigger] orig[p]).0 == b;
                        if p != rest@.len() as int {
                            assert(orig[rest@.len() as int].0 != orig[p].0);
                        }
                        assert(n.child_at(b) == Some(pnode));
                    } else {
                        if exists|p: int|
                            pre_rest.len() <= p < orig.len() && (#[trigger] orig[p]).0
                                == b {
                            let p = choose|p: int|
                                pre_rest.len() <= p < orig.len() && (#[trigger] orig[p]).0
                                    == b;
                            assert(rest@.len() <= p < orig.len() && orig[p].0 == b);
                            let p2 = choose|p2: int|
                                rest@.len() <= p2 < orig.len() && (#[trigger] orig[p2]).0
                                    == b;
                            if p2 != p {
                                assert(orig[p].0 != orig[p2].0);
                            }
                        } else {
                            if exists|p: int|
                                rest@.len() <= p < orig.len() && (#[trigger] orig[p]).0
                                    == b {
                                let p = choose|p: int|
                                    rest@.len() <= p < orig.len() && (
                                    #[trigger] orig[p]).0 == b;
                                assert(p == pre_rest.len() - 1);
                                assert(false);
                            }
                        }
                    }
                }
            }
        }
        proof {
            assert forall|b: u8| n.child_at(b) == (if has_pair(orig, b) {
                Some(pair_node(orig, b))
            } else {
                None::<Node>
            }) by {
                if has_pair(orig, b) {
                    let p = choose|p: int| 0 <= p < orig.len() && orig[p].0 == b;
                    assert(exists|p2: int|
                        rest@.len() <= p2 < orig.len() && (#[trigger] orig[p2]).0 == b);
                    let p2 = choose|p2: int|
                        rest@.len() <= p2 < orig.len() && (#[trigger] orig[p2]).0 == b;
                    if p2 != p {
                        assert(orig[p].0 != orig[p2].0);
                    }
                    assert(pair_node(orig, b) == orig[choose|i: int|
                        0 <= i < orig.len() && orig[i].0 == b].1);
                    let p3 = choose|i: int| 0 <= i < orig.len() && orig[i].0 == b;
                    if p3 != p {
                        assert(orig[p].0 != orig[p3].0);
                    }
                }
            }
        }
        n
    }

    /// Replace an underfilled node by the smallest shape that fits its
    /// children.
    pub fn shrink(&mut self)
        requires
            old(self).layout_wf(),
            forall|i: int|
                0 <= i < old(self).children@.len() && (
                #[trigger] old(self).children@[i]) is Some ==> old(
                self,
            ).children@[i]->0.wf(),
            old(self).spec_count() < 256,
        ensures
            final(self).wf(),
            final(self).leaf == old(self).leaf,
            final(self).spec_count() == old(self).spec_count(),
            forall|b: u8| final(self).child_at(b) == old(self).child_at(b),
            final(self).typ == (if old(self).spec_count() <= 4 {
                ArtNodeType::Node4
            } else if old(self).spec_count() <= 16 {
                ArtNodeType::Node16
            } else if old(self).spec_count() <= 48 {
                ArtNodeType::Node48
            } else {
                ArtNodeType::Node256
            }),
    {
        let leaf = self.leaf.take();
        let ghost mid = *self;
        proof {
            assert(mid.typ == old(self).typ && mid.keys == old(self).keys && mid.children
                == old(self).children);
            assert forall|b: u8| mid.child_at(b) == old(self).child_at(b) by {
                assert(mid.child_slot(b) == old(self).child_slot(b));
            }
        }
        let pairs = self.take_pairs();
        *self = Self::from_pairs(pairs, leaf);
        proof {
            assert forall|b: u8| final(self).child_at(b) == old(self).child_at(b) by {
                assert(mid.child_at(b) == old(self).child_at(b));
            }
        }
    }

    /// Remove the child serving key byte `key` (a miss changes
    /// nothing), shrinking shape when the node falls below its floor.
    #[verifier::rlimit(100)]
    #[verifier::spinoff_prover]
    pub fn delete_child(&mut self, key: u8)
        requires
            old(self).wf(),
        ensures
            final(self).wf(),
            final(self).leaf == old(self).leaf,
            final(self).spec_count() == old(self).spec_count() - (if old(self).child_at(
                key,
            ) is Some {
                1int
            } else {
                0int
            }),
            forall|b: u8| final(self).child_at(b) == (if b == key {
                None
            } else {
                old(self).child_at(b)
            }),
    {
        proof {
            lemma_count_bounds(self.children@);
        }
        let idx = match self.index(key) {
            None => {
                return ;
            },
            Some(i) => i,
        };
        let ghost mid0 = *self;
        match self.typ {
            ArtNodeType::Node4 | ArtNodeType::Node16 => {
                self.keys.remove(idx);
                self.children.remove(idx);
                proof {
                    lemma_count_remove(mid0.children@, idx as int);
                    let news = *self;
                    assert forall|b: u8| news.child_at(b) == (if b == key {
                        None
                    } else {
                        mid0.child_at(b)
                    }) by {
                        if b == key {
                            if exists|j: int|
                                0 <= j < news.keys@.len() && news.keys@[j] == b {
                                let j = choose|j: int|
                                    0 <= j < news.keys@.len() && news.keys@[j] == b;
                                if j < idx as int {
                                    assert(mid0.keys@[j] == b);
                                    mid0.lemma_dense_slot(b, j);
                                } else {
                                    assert(mid0.keys@[j + 1] == b);
                                    mid0.lemma_dense_slot(b, j + 1);
                                }
                                assert(false);
                            }
                        } else {
                            if exists|j: int|
                                0 <= j < mid0.keys@.len() && mid0.keys@[j] == b {
                                let j = choose|j: int|
                                    0 <= j < mid0.keys@.len() && mid0.keys@[j] == b;
                                mid0.lemma_dense_slot(b, j);
                                if j < idx as int {
                                    assert(news.keys@[j] == b);
                                    news.lemma_dense_slot(b, j);
                                } else {
                                    assert(news.keys@[j - 1] == b);
                                    news.lemma_dense_slot(b, j - 1);
                                }
                            } else {
                                if exists|j: int|
                                    0 <= j < news.keys@.len() && news.keys@[j] == b {
                                    let j = choose|j: int|
                                        0 <= j < news.keys@.len() && news.keys@[j] == b;
                                    if j < idx as int {
                                        assert(mid0.keys@[j] == b);
                                    } else {
                                        assert(mid0.keys@[j + 1] == b);
                                    }
                                    assert(false);
                                }
                            }
                        }
                    }
                }
            },
            ArtNodeType::Node48 => {
                self.keys[key as usize] = 0;
                self.children[idx] = None;
                proof {
                    lemma_count_update(mid0.children@, idx as int, None);
                    let news = *self;
                    assert(news.keys@ == mid0.keys@.update(key as int, 0u8));
                    assert(news.children@ == mid0.children@.update(idx as int, None));
                    assert forall|b: int|
                        0 <= b < 256 && #[trigger] news.keys@[b] != 0 implies news.keys@[b]
                            <= news.children@.len() && news.children@[news.keys@[b]
                            - 1] is Some by {
                        assert(mid0.keys@[b] == news.keys@[b]);
                        if news.keys@[b] - 1 == idx as int {
                            assert(mid0.keys@[b] == mid0.keys@[key as int]);
                            assert(b == key as int);
                        }
                    }
                    assert forall|s2: int|
                        0 <= s2 < news.children@.len() && (#[trigger] news.children@[s2])
                            is Some implies exists|b: int|
                        0 <= b < 256 && #[trigger] news.keys@[b] == s2 + 1 by {
                        let b = choose|b: int|
                            0 <= b < 256 && #[trigger] mid0.keys@[b] == s2 + 1;
                        assert(b != key as int);
                        assert(news.keys@[b] == s2 + 1);
                    }
                    assert forall|b: u8| news.child_at(b) == (if b == key {
                        None
                    } else {
                        mid0.child_at(b)
                    }) by {
                        if b != key && mid0.keys@[b as int] != 0 {
                            assert(news.keys@[b as int] == mid0.keys@[b as int]);
                            if mid0.keys@[b as int] - 1 == idx as int {
                                assert(mid0.keys@[b as int] == mid0.keys@[key as int]);
                                assert(false);
                            }
                            assert(news.children@[news.keys@[b as int] - 1]
                                == mid0.children@[mid0.keys@[b as int] - 1]);
                        }
                    }
                }
            },
            ArtNodeType::Node256 => {
                self.children[key as usize] = None;
                proof {
                    lemma_count_update(mid0.children@, key as int, None);
                }
            },
        }
        let ghost mid = *self;
        if self.is_less() {
            match self.typ {
                ArtNodeType::Node4 => {},
                _ => {
                    proof {
                        lemma_count_bounds(mid.children@);
                    }
                    self.shrink();
                },
            }
        }
    }

    /// Distinct bytes never share a slot.
    pub proof fn lemma_slot_inj(self, b1: u8, b2: u8)
        requires
            self.layout_wf(),
            self.child_slot(b1) is Some,
            self.child_slot(b2) is Some,
            self.child_slot(b1) == self.child_slot(b2),
        ensures
            b1 == b2,
    {
        match self.typ {
            ArtNodeType::Node4 | ArtNodeType::Node16 => {
                let i1 = choose|i: int| 0 <= i < self.keys@.len() && self.keys@[i] == b1;
                let i2 = choose|i: int| 0 <= i < self.keys@.len() && self.keys@[i] == b2;
                if i1 != i2 {
                    assert(self.keys@[i1] != self.keys@[i2] || self.keys@[i1]
                        < self.keys@[i2] || self.keys@[i2] < self.keys@[i1]);
                }
            },
            ArtNodeType::Node48 => {
                if b1 != b2 {
                    assert(self.keys@[b1 as int] != self.keys@[b2 as int] || b1 == b2);
                }
            },
            ArtNodeType::Node256 => {},
        }
    }

    /// Nodes agreeing on shape, key array and (for the direct shape)
    /// slot occupancy agree on where a byte's child sits.
    pub proof fn lemma_same_slots(n1: Node, n2: Node, b: u8)
        requires
            n1.typ == n2.typ,
            n1.keys@ == n2.keys@,
            n1.children@.len() == n2.children@.len(),
            n1.typ == ArtNodeType::Node256 ==> (n1.children@[b as int] is Some
                <==> n2.children@[b as int] is Some),
        ensures
            n1.child_slot(b) == n2.child_slot(b),
    {
        match n1.typ {
            ArtNodeType::Node4 | ArtNodeType::Node16 => {
                if exists|i: int| 0 <= i < n1.keys@.len() && n1.keys@[i] == b {
                    let i = choose|i: int| 0 <= i < n1.keys@.len() && n1.keys@[i] == b;
                    assert(n2.keys@[i] == b);
                }
                if exists|i: int| 0 <= i < n2.keys@.len() && n2.keys@[i] == b {
                    let i = choose|i: int| 0 <= i < n2.keys@.len() && n2.keys@[i] == b;
                    assert(n1.keys@[i] == b);
                }
            },
            _ => {},
        }
    }

    /// A node with no children and no leaf terminates no suffix.
    pub proof fn lemma_empty_node(self)
        requires
            self.layout_wf(),
            self.spec_count() == 0,
            self.leaf is None,
        ensures
            forall|s: Seq<u8>| !self.contains_suffix(s),
    {
        lemma_count_zero(self.children@);
        assert forall|s: Seq<u8>| !self.contains_suffix(s) by {
            if s.len() > 0 {
                if self.child_at(s[0]) is Some {
                    let i = self.child_slot(s[0])->0;
                    assert(self.children@[i] is Some);
                }
            }
        }
    }

    /// Overwrite the child at an occupied slot.
    #[verifier::rlimit(100)]
    #[verifier::spinoff_prover]
    fn set_child_at(&mut self, key_b: u8, idx: usize, c: Node)
        requires
            old(self).wf(),
            c.wf(),
            old(self).child_slot(key_b) == Some(idx as int),
            idx < old(self).children@.len(),
            old(self).children@[idx as int] is Some,
        ensures
            final(self).wf(),
            final(self).leaf == old(self).leaf,
            final(self).typ == old(self).typ,
            final(self).spec_count() == old(self).spec_count(),
            forall|b: u8| final(self).child_at(b) == (if b == key_b {
                Some(c)
            } else {
                old(self).child_at(b)
            }),
    {
        self.children[idx] = Some(c);
        proof {
            let mid = *old(self);
            let news = *self;
            lemma_count_update(mid.children@, idx as int, Some(c));
            assert(news.children@ == mid.children@.update(idx as int, Some(c)));
            assert forall|b: u8| news.child_at(b) == (if b == key_b {
                Some(c)
            } else {
                mid.child_at(b)
            }) by {
                Self::lemma_same_slots(news, mid, b);
                if b == key_b {
                } else {
                    match mid.child_slot(b) {
                        None => {},
                        Some(j) => {
                            if j == idx as int {
                                mid.lemma_slot_inj(b, key_b);
                            }
                        },
                    }
                }
            }
            // the 48-slot no-orphan clause survives the overwrite
            if news.typ == ArtNodeType::Node48 {
                assert forall|s2: int|
                    0 <= s2 < news.children@.len() && (#[trigger] news.children@[s2])
                        is Some implies exists|b: int|
                    0 <= b < 256 && #[trigger] news.keys@[b] == s2 + 1 by {
                    assert(mid.children@[s2] is Some);
                }
            }
        }
    }

    /// Setting or replacing the leaf adds exactly the empty suffix.
    pub proof fn lemma_leaf_set(oldn: Node, news: Node, value_pos: KVpos)
        requires
            news.typ == oldn.typ,
            news.keys == oldn.keys,
            news.children == oldn.children,
            news.leaf is Some,
            news.leaf->0.value_pos == value_pos,
        ensures
            forall|s: Seq<u8>| #[trigger]
                news.contains_suffix(s) <==> oldn.contains_suffix(s) || s
                    == Seq::<u8>::empty(),
            forall|s: Seq<u8>| #[trigger]
                news.contains_suffix(s) ==> news.pos_at(s) == (if s == Seq::<u8>::empty() {
                    value_pos
                } else {
                    oldn.pos_at(s)
                }),
    {
        assert forall|s: Seq<u8>| #[trigger]
            news.contains_suffix(s) <==> oldn.contains_suffix(s) || s
                == Seq::<u8>::empty() by {
            if s.len() == 0 {
                assert(s =~= Seq::<u8>::empty());
            } else {
                Self::lemma_same_slots(news, oldn, s[0]);
                assert(news.child_at(s[0]) == oldn.child_at(s[0]));
                assert(s.len() != 0);
            }
        }
        assert forall|s: Seq<u8>| #[trigger]
            news.contains_suffix(s) implies news.pos_at(s) == (if s == Seq::<u8>::empty() {
            value_pos
        } else {
            oldn.pos_at(s)
        }) by {
            if s.len() == 0 {
                assert(s =~= Seq::<u8>::empty());
            } else {
                Self::lemma_same_slots(news, oldn, s[0]);
                assert(news.child_at(s[0]) == oldn.child_at(s[0]));
            }
        }
    }

    /// Walk down one byte at a time; record the leaf when the key is
    /// consumed.
    #[verifier::rlimit(100)]
    #[verifier::spinoff_prover]
    pub fn insert_with_depth(node: &mut Node, key: &Vec<u8>, depth: usize, value_pos: KVpos)
        requires
            old(node).wf(),
            depth <= key@.len(),
        ensures
            final(node).wf(),
            forall|s: Seq<u8>| #[trigger]
                final(node).contains_suffix(s) <==> old(node).contains_suffix(s) || s
                    == key@.skip(depth as int),
            forall|s: Seq<u8>| #[trigger]
                final(node).contains_suffix(s) ==> final(node).pos_at(s) == (if s
                    == key@.skip(depth as int) {
                    value_pos
                } else {
                    old(node).pos_at(s)
                }),
        decreases key@.len() - depth,
    {
        let ghost oldn = *old(node);
        if depth == key.len() {
            node.leaf = Some(Leaf { key: crate::util::read_bytes(key, 0, key.len()), value_pos });
            proof {
                let news = *node;
                assert(key@.skip(depth as int) =~= Seq::<u8>::empty());
                Self::lemma_leaf_set(oldn, news, value_pos);
            }
            return ;
        }
        let b = key[depth];
        let ghost suffix = key@.skip(depth as int);
        proof {
            assert(suffix.len() > 0 && suffix[0] == b && suffix.drop_first() =~= key@.skip(
                depth as int + 1,
            ));
        }
        match node.index(b) {
            Some(idx) => {
                let taken = node.children[idx].take();
                let mut c = taken.unwrap();
                let ghost oldc = c;
                Self::insert_with_depth(&mut c, key, depth + 1, value_pos);
                let ghost mid = *node;
                proof {
                    // the slot table is untouched while the child is out
                    assert(mid.typ == oldn.typ && mid.keys == oldn.keys);
                    assert(mid.children@ == oldn.children@.update(idx as int, None));
                }
                node.restore_child(b, idx, c, Ghost(oldn));
                proof {
                    let news = *node;
                    assert forall|s: Seq<u8>| #[trigger]
                        news.contains_suffix(s) <==> oldn.contains_suffix(s) || s
                            == suffix by {
                        if s.len() == 0 {
                            assert(s != suffix);
                        } else if s[0] == b {
                            assert(news.child_at(s[0]) == Some(c));
                            assert(oldn.child_at(s[0]) == Some(oldc));
                            assert(news.contains_suffix(s) == c.contains_suffix(
                                s.drop_first(),
                            ));
                            assert(oldn.contains_suffix(s) == oldc.contains_suffix(
                                s.drop_first(),
                            ));
                            assert(suffix.drop_first() =~= key@.skip(depth as int + 1));
                            assert(c.contains_suffix(s.drop_first())
                                <==> oldc.contains_suffix(s.drop_first()) || s.drop_first()
                                == key@.skip(depth as int + 1));
                            if s.drop_first() == suffix.drop_first() {
                                lemma_cons_eq(s, suffix);
                            }
                        } else {
                            assert(news.child_at(s[0]) == oldn.child_at(s[0]));
                            assert(s != suffix);
                        }
                    }
                    assert forall|s: Seq<u8>| #[trigger]
                        news.contains_suffix(s) implies news.pos_at(s) == (if s == suffix {
                        value_pos
                    } else {
                        oldn.pos_at(s)
                    }) by {
                        if s.len() == 0 {
                        } else if s[0] == b {
                            assert(news.child_at(s[0]) == Some(c));
                            assert(oldn.child_at(s[0]) == Some(oldc));
                            assert(news.contains_suffix(s) == c.contains_suffix(
                                s.drop_first(),
                            ));
                            assert(oldn.contains_suffix(s) == oldc.contains_suffix(
                                s.drop_first(),
                            ));
                            assert(news.pos_at(s) == c.pos_at(s.drop_first()));
                            assert(suffix.drop_first() =~= key@.skip(depth as int + 1));
                            assert(c.contains_suffix(s.drop_first()) ==> c.pos_at(
                                s.drop_first(),
                            ) == (if s.drop_first() == key@.skip(depth as int + 1) {
                                value_pos
                            } else {
                                oldc.pos_at(s.drop_first())
                            }));
                            if oldn.contains_suffix(s) {
                                assert(oldn.pos_at(s) == oldc.pos_at(s.drop_first()));
                            }
                            if s.drop_first() == suffix.drop_first() {
                                lemma_cons_eq(s, suffix);
                            }
                        } else {
                            assert(news.child_at(s[0]) == oldn.child_at(s[0]));
                            assert(s != suffix);
                        }
                    }
                }
            },
            None => {
                let mut fresh = Node::new_node4();
                let ghost fresh0 = fresh;
                Self::insert_with_depth(&mut fresh, key, depth + 1, value_pos);
                proof {
                    lemma_count_bounds(oldn.children@);
                    if oldn.spec_count() == 256 {
                        assert(oldn.typ == ArtNodeType::Node256) by {
                            lemma_count_bounds(oldn.children@);
                        }
                        assert(oldn.children@[b as int] is None || oldn.child_at(b)
                            is Some);
                        lemma_count_not_full(oldn.children@, b as int);
                    }
                }
                node.add_child(b, fresh);
                proof {
                    let news = *node;
                    assert forall|s: Seq<u8>| #[trigger]
                        news.contains_suffix(s) <==> oldn.contains_suffix(s) || s
                            == suffix by {
                        if s.len() == 0 {
                            assert(s != suffix);
                        } else if s[0] == b {
                            assert(news.child_at(s[0]) == Some(fresh));
                            assert(oldn.child_at(s[0]) is None);
                            assert(news.contains_suffix(s) == fresh.contains_suffix(
                                s.drop_first(),
                            ));
                            assert(!oldn.contains_suffix(s));
                            assert(!fresh0.contains_suffix(s.drop_first()));
                            assert(suffix.drop_first() =~= key@.skip(depth as int + 1));
                            assert(fresh.contains_suffix(s.drop_first())
                                <==> fresh0.contains_suffix(s.drop_first())
                                || s.drop_first() == key@.skip(depth as int + 1));
                            if s.drop_first() == suffix.drop_first() {
                                lemma_cons_eq(s, suffix);
                            }
                        } else {
                            assert(news.child_at(s[0]) == oldn.child_at(s[0]));
                            assert(s != suffix);
                        }
                    }
                    assert forall|s: Seq<u8>| #[trigger]
                        news.contains_suffix(s) implies news.pos_at(s) == (if s == suffix {
                        value_pos
                    } else {
                        oldn.pos_at(s)
                    }) by {
                        if s.len() == 0 {
                        } else if s[0] == b {
                            assert(news.child_at(s[0]) == Some(fresh));
                            assert(news.contains_suffix(s) == fresh.contains_suffix(
                                s.drop_first(),
                            ));
                            assert(news.pos_at(s) == fresh.pos_at(s.drop_first()));
                            assert(!fresh0.contains_suffix(s.drop_first()));
                            assert(suffix.drop_first() =~= key@.skip(depth as int + 1));
                            assert(fresh.contains_suffix(s.drop_first()) ==> fresh.pos_at(
                                s.drop_first(),
                            ) == (if s.drop_first() == key@.skip(depth as int + 1) {
                                value_pos
                            } else {
                                fresh0.pos_at(s.drop_first())
                            }));
                            if s.drop_first() == suffix.drop_first() {
                                lemma_cons_eq(s, suffix);
                            }
                        } else {
                            assert(news.child_at(s[0]) == oldn.child_at(s[0]));
                            assert(s != suffix);
                        }
                    }
                }
            },
        }
    }

    /// Put a child back into the slot it was taken from.
    #[verifier::rlimit(100)]
    #[verifier::spinoff_prover]
    fn restore_child(&mut self, key_b: u8, idx: usize, c: Node, Ghost(orig): Ghost<Node>)
        requires
            orig.wf(),
            c.wf(),
            orig.child_slot(key_b) == Some(idx as int),
            idx < orig.children@.len(),
            orig.children@[idx as int] is Some,
            old(self).typ == orig.typ,
            old(self).keys == orig.keys,
            old(self).leaf == orig.leaf,
            old(self).children@ == orig.children@.update(idx as int, None),
        ensures
            final(self).wf(),
            final(self).leaf == orig.leaf,
            final(self).typ == orig.typ,
            final(self).spec_count() == orig.spec_count(),
            forall|b: u8| final(self).child_at(b) == (if b == key_b {
                Some(c)
            } else {
                orig.child_at(b)
            }),
    {
        self.children[idx] = Some(c);
        proof {
            let news = *self;
            assert(news.children@ =~= orig.children@.update(idx as int, Some(c)));
            lemma_count_update(orig.children@, idx as int, Some(c));
            assert forall|b: u8| news.child_at(b) == (if b == key_b {
                Some(c)
            } else {
                orig.child_at(b)
            }) by {
                Self::lemma_same_slots(news, orig, b);
                if b != key_b {
                    match orig.child_slot(b) {
                        None => {},
                        Some(j) => {
                            if j == idx as int {
                                orig.lemma_slot_inj(b, key_b);
                            }
                        },
                    }
                }
            }
            if news.typ == ArtNodeType::Node48 {
                assert forall|s2: int|
                    0 <= s2 < news.children@.len() && (#[trigger] news.children@[s2])
                        is Some implies exists|b: int|
                    0 <= b < 256 && #[trigger] news.keys@[b] == s2 + 1 by {
                    assert(orig.children@[s2] is Some);
                }
            }
        }
    }

    /// Clearing the leaf removes exactly the empty suffix.
    pub proof fn lemma_leaf_clear(oldn: Node, news: Node)
        requires
            news.typ == oldn.typ,
            news.keys == oldn.keys,
            news.children == oldn.children,
            news.leaf is None,
        ensures
            forall|s: Seq<u8>| #[trigger]
                news.contains_suffix(s) <==> oldn.contains_suffix(s) && s
                    != Seq::<u8>::empty(),
            forall|s: Seq<u8>| #[trigger]
                news.contains_suffix(s) ==> news.pos_at(s) == oldn.pos_at(s),
    {
        assert forall|s: Seq<u8>| #[trigger]
            news.contains_suffix(s) <==> oldn.contains_suffix(s) && s
                != Seq::<u8>::empty() by {
            if s.len() == 0 {
                assert(s =~= Seq::<u8>::empty());
            } else {
                Self::lemma_same_slots(news, oldn, s[0]);
                assert(news.child_at(s[0]) == oldn.child_at(s[0]));
                assert(s != Seq::<u8>::empty());
            }
        }
        assert forall|s: Seq<u8>| #[trigger]
            news.contains_suffix(s) implies news.pos_at(s) == oldn.pos_at(s) by {
            if s.len() > 0 {
                Self::lemma_same_slots(news, oldn, s[0]);
                assert(news.child_at(s[0]) == oldn.child_at(s[0]));
            }
        }
    }

    /// Look the rest of the key up from `depth` on.
    pub fn get_with_depth(node: &Node, key: &Vec<u8>, depth: usize) -> (r: Option<KVpos>)
        requires
            node.wf(),
            depth <= key@.len(),
        ensures
            r == (if node.contains_suffix(key@.skip(depth as int)) {
                Some(node.pos_at(key@.skip(depth as int)))
            } else {
                None::<KVpos>
            }),
        decreases key@.len() - depth,
    {
        let ghost suffix = key@.skip(depth as int);
        if depth == key.len() {
            proof {
                assert(suffix =~= Seq::<u8>::empty());
            }
            match &node.leaf {
                Some(l) => Some(l.value_pos),
                None => None,
            }
        } else {
            proof {
                assert(suffix.len() > 0 && suffix[0] == key@[depth as int]
                    && suffix.drop_first() =~= key@.skip(depth as int + 1));
            }
            match node.find_child(key[depth]) {
                Some(c) => {
                    proof {
                        let i = node.child_slot(key@[depth as int] as u8)->0;
                        assert(node.children@[i] is Some && node.children@[i]->0.wf());
                    }
                    Self::get_with_depth(c, key, depth + 1)
                },
                None => None,
            }
        }
    }

    /// Remove the key's terminator from `depth` on, pruning a child
    /// that ends up holding nothing.
    #[verifier::rlimit(100)]
    #[verifier::spinoff_prover]
    pub fn remove_with_depth(node: &mut Node, key: &Vec<u8>, depth: usize)
        requires
            old(node).wf(),
            depth <= key@.len(),
        ensures
            final(node).wf(),
            forall|s: Seq<u8>| #[trigger]
                final(node).contains_suffix(s) <==> old(node).contains_suffix(s) && s
                    != key@.skip(depth as int),
            forall|s: Seq<u8>| #[trigger]
                final(node).contains_suffix(s) ==> final(node).pos_at(s) == old(
                    node,
                ).pos_at(s),
        decreases key@.len() - depth,
    {
        let ghost oldn = *old(node);
        let ghost suffix = key@.skip(depth as int);
        if depth == key.len() {
            node.leaf = None;
            proof {
                assert(suffix =~= Seq::<u8>::empty());
                Self::lemma_leaf_clear(oldn, *node);
            }
            return ;
        }
        let b = key[depth];
        proof {
            assert(suffix.len() > 0 && suffix[0] == b && suffix.drop_first() =~= key@.skip(
                depth as int + 1,
            ));
        }
        match node.index(b) {
            None => {
                proof {
                    assert forall|s: Seq<u8>| #[trigger]
                        oldn.contains_suffix(s) implies s != suffix by {
                        if s == suffix {
                            assert(oldn.child_at(s[0]) is None);
                        }
                    }
                }
            },
            Some(idx) => {
                let taken = node.children[idx].take();
                let mut c = taken.unwrap();
                let ghost oldc = c;
                Self::remove_with_depth(&mut c, key, depth + 1);
                let ghost mid = *node;
                proof {
                    assert(mid.typ == oldn.typ && mid.keys == oldn.keys);
                    assert(mid.children@ == oldn.children@.update(idx as int, None));
                }
                let empty_child = c.get_child_size() == 0 && !c.is_leaf();
                let ghost cfin = c;
                node.restore_child(b, idx, c, Ghost(oldn));
                proof {
                    let news = *node;
                    assert forall|s: Seq<u8>| #[trigger]
                        news.contains_suffix(s) <==> oldn.contains_suffix(s) && s
                            != suffix by {
                        if s.len() == 0 {
                            assert(s != suffix);
                        } else if s[0] == b {
                            assert(news.child_at(s[0]) == Some(cfin));
                            assert(oldn.child_at(s[0]) == Some(oldc));
                            assert(news.contains_suffix(s) == cfin.contains_suffix(
                                s.drop_first(),
                            ));
                            assert(oldn.contains_suffix(s) == oldc.contains_suffix(
                                s.drop_first(),
                            ));
                            assert(cfin.contains_suffix(s.drop_first())
                                <==> oldc.contains_suffix(s.drop_first()) && s.drop_first()
                                != key@.skip(depth as int + 1));
                            if s.drop_first() == suffix.drop_first() {
                                lemma_cons_eq(s, suffix);
                            }
                            if s == suffix {
                                assert(s.drop_first() == suffix.drop_first());
                            }
                        } else {
                            assert(news.child_at(s[0]) == oldn.child_at(s[0]));
                            assert(s != suffix);
                        }
                    }
                    assert forall|s: Seq<u8>| #[trigger]
                        news.contains_suffix(s) implies news.pos_at(s) == oldn.pos_at(
                        s,
                    ) by {
                        if s.len() > 0 && s[0] == b {
                            assert(news.child_at(s[0]) == Some(cfin));
                            assert(oldn.child_at(s[0]) == Some(oldc));
                            assert(news.pos_at(s) == cfin.pos_at(s.drop_first()));
                            assert(news.contains_suffix(s) == cfin.contains_suffix(
                                s.drop_first(),
                            ));
                            assert(cfin.contains_suffix(s.drop_first()) ==> cfin.pos_at(
                                s.drop_first(),
                            ) == oldc.pos_at(s.drop_first()));
                        } else if s.len() > 0 {
                            assert(news.child_at(s[0]) == oldn.child_at(s[0]));
                        }
                    }
                }
                if empty_child {
                    let ghost pre = *node;
                    proof {
                        cfin.lemma_empty_node();
                    }
                    node.delete_child(b);
                    proof {
                        let news = *node;
                        assert forall|s: Seq<u8>| #[trigger]
                            news.contains_suffix(s) <==> pre.contains_suffix(s) by {
                            if s.len() > 0 {
                                if s[0] == b {
                                    assert(pre.child_at(s[0]) == Some(cfin));
                                    assert(!cfin.contains_suffix(s.drop_first()));
                                    assert(news.child_at(s[0]) is None);
                                } else {
                                    assert(news.child_at(s[0]) == pre.child_at(s[0]));
                                }
                            }
                        }
                        assert forall|s: Seq<u8>| #[trigger]
                            news.contains_suffix(s) implies news.pos_at(s) == pre.pos_at(
                            s,
                        ) by {
                            if s.len() > 0 {
                                assert(news.child_at(s[0]) == pre.child_at(s[0]));
                            }
                        }
                    }
                }
            },
        }
    }
}


/// The in-memory index: an adaptive radix trie from full key bytes to
/// `KVpos` records.
pub struct ArtTree {
    pub root: Option<Node>,
}

impl ArtTree {
    /// A consistent trie.
    pub open spec fn wf(self) -> bool {
        self.root matches Some(r) ==> r.wf()
    }

    /// Whether the trie holds a record for key `k`.
    pub open spec fn spec_contains(self, k: Seq<u8>) -> bool {
        self.root is Some && self.root->0.contains_suffix(k)
    }

    /// The record the trie holds for key `k`.
    pub open spec fn spec_at(self, k: Seq<u8>) -> KVpos {
        self.root->0.pos_at(k)
    }

    /// An empty trie.
    pub fn new() -> (r: ArtTree)
        ensures
            r.wf(),
            forall|k: Seq<u8>| !r.spec_contains(k),
    {
        ArtTree { root: None }
    }

    /// Record `value_pos` for `key`.
    pub fn insert(&mut self, key: &Vec<u8>, value_pos: KVpos)
        requires
            old(self).wf(),
        ensures
            final(self).wf(),
            forall|k: Seq<u8>| #[trigger]
                final(self).spec_contains(k) <==> old(self).spec_contains(k) || k == key@,
            forall|k: Seq<u8>| #[trigger]
                final(self).spec_contains(k) ==> final(self).spec_at(k) == (if k == key@ {
                    value_pos
                } else {
                    old(self).spec_at(k)
                }),
    {
        let mut r = match self.root.take() {
            Some(r) => r,
            None => Node::new_node4(),
        };
        let ghost r0 = r;
        let ghost had_root = old(self).root is Some;
        Node::insert_with_depth(&mut r, key, 0, value_pos);
        self.root = Some(r);
        proof {
            assert(key@.skip(0) =~= key@);
            if !had_root {
                assert(forall|s: Seq<u8>| !r0.contains_suffix(s));
            }
        }
    }

    /// Look `key` up.
    pub fn get(&self, key: &Vec<u8>) -> (r: Option<KVpos>)
        requires
            self.wf(),
        ensures
            r == (if self.spec_contains(key@) {
                Some(self.spec_at(key@))
            } else {
                None::<KVpos>
            }),
    {
        match &self.root {
            None => None,
            Some(node) => {
                let res = Node::get_with_depth(node, key, 0);
                proof {
                    assert(key@.skip(0) =~= key@);
                }
                res
            },
        }
    }

    /// Remove `key`'s record, if any.
    pub fn remove(&mut self, key: &Vec<u8>)
        requires
            old(self).wf(),
        ensures
            final(self).wf(),
            forall|k: Seq<u8>| #[trigger]
                final(self).spec_contains(k) <==> old(self).spec_contains(k) && k != key@,
            forall|k: Seq<u8>| #[trigger]
                final(self).spec_contains(k) ==> final(self).spec_at(k) == old(
                    self,
                ).spec_at(k),
    {
        match self.root.take() {
            None => {},
            Some(mut r) => {
                Node::remove_with_depth(&mut r, key, 0);
                self.root = Some(r);
                proof {
                    assert(key@.skip(0) =~= key@);
                }
            },
        }
    }
}

impl Default for ArtTree {
    /// The empty trie.
    fn default() -> (r: ArtTree)
        ensures
            r.wf(),
            forall|k: Seq<u8>| !r.spec_contains(k),
    {
        ArtTree::new()
    }
}

} // verus!
