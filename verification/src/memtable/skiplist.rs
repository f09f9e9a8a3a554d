use crate::common::comparator::{BytewiseComparator, Comparator, KeyOrder};
use crate::common::types::{EntryValue, Key, Value};
use crate::db::errors::{DbError, Result};
use crate::memtable::memtable::MemTable;
use vstd::prelude::*;

verus! {

/// The number of levels of the skip list.
pub const MAX_HEIGHT: usize = 12;

/// The state the height generator of a new table starts from.
pub const INITIAL_GENERATOR_STATE: u64 = 0x9E37_79B9_7F4A_7C15;

/// A key, its entry, and the node that follows it on each of its levels.
#[derive(Debug, Clone)]
struct Node {
    key: Key,
    value: EntryValue,
    next: Vec<Option<usize>>,
}

impl Node {
    fn new(key: Key, value: EntryValue, height: usize) -> (r: Node)
        ensures
            r.key == key,
            r.value == value,
            r.next@ == Seq::new(height as nat, |i: int| None::<usize>),
    {
        let mut next: Vec<Option<usize>> = Vec::new();
        let mut i: usize = 0;
        while i < height
            invariant
                i <= height,
                next@ == Seq::new(i as nat, |j: int| None::<usize>),
            decreases height - i,
        {
            next.push(None);
            i = i + 1;
            assert(next@ =~= Seq::new(i as nat, |j: int| None::<usize>));
        }
        Node { key, value, next }
    }
}

/// The map that a sequence of nodes stands for: each node's key maps to
/// its entry, a later node taking precedence over an earlier one.
spec fn node_entries(nodes: Seq<Node>) -> Map<Seq<u8>, EntryValue>
    decreases nodes.len(),
{
    if nodes.len() == 0 {
        Map::empty()
    } else {
        node_entries(nodes.drop_last()).insert(nodes.last().key@, nodes.last().value)
    }
}

/// The keys of a sequence of nodes are pairwise distinct.
spec fn distinct_keys(nodes: Seq<Node>) -> bool {
    forall|i: int, j: int|
        0 <= i < nodes.len() && 0 <= j < nodes.len() && i != j ==> #[trigger] nodes[i].key@
            != #[trigger] nodes[j].key@
}

/// Two node sequences hold the same keys and entries, position by position.
spec fn same_contents(a: Seq<Node>, b: Seq<Node>) -> bool {
    &&& a.len() == b.len()
    &&& forall|i: int|
        0 <= i < a.len() ==> (#[trigger] a[i]).key@ == b[i].key@ && a[i].value == b[i].value
}

proof fn lemma_node_entries_facts(nodes: Seq<Node>)
    ensures
        node_entries(nodes).dom().finite(),
        forall|k: Seq<u8>|
            #[trigger] node_entries(nodes).contains_key(k) <==> exists|i: int|
                0 <= i < nodes.len() && nodes[i].key@ == k,
        distinct_keys(nodes) ==> node_entries(nodes).len() == nodes.len(),
        distinct_keys(nodes) ==> forall|i: int|
            0 <= i < nodes.len() ==> node_entries(nodes)[#[trigger] nodes[i].key@]
                == nodes[i].value,
    decreases nodes.len(),
{
    if nodes.len() > 0 {
        let prefix = nodes.drop_last();
        lemma_node_entries_facts(prefix);
        let last = nodes.last();
        assert forall|k: Seq<u8>|
            #[trigger] node_entries(nodes).contains_key(k) <==> exists|i: int|
                0 <= i < nodes.len() && nodes[i].key@ == k by {
            if node_entries(nodes).contains_key(k) && k != last.key@ {
                let i = choose|i: int| 0 <= i < prefix.len() && prefix[i].key@ == k;
                assert(nodes[i].key@ == k);
            }
            if exists|i: int| 0 <= i < nodes.len() && nodes[i].key@ == k {
                let i = choose|i: int| 0 <= i < nodes.len() && nodes[i].key@ == k;
                if i < prefix.len() {
                    assert(prefix[i].key@ == k);
                }
            }
        }
        if distinct_keys(nodes) {
            assert(distinct_keys(prefix)) by {
                assert forall|i: int, j: int|
                    0 <= i < prefix.len() && 0 <= j < prefix.len() && i != j implies #[trigger] prefix[i].key@
                    != #[trigger] prefix[j].key@ by {
                    assert(nodes[i].key@ != nodes[j].key@);
                }
            }
            assert(!node_entries(prefix).contains_key(last.key@)) by {
                if node_entries(prefix).contains_key(last.key@) {
                    let i = choose|i: int| 0 <= i < prefix.len() && prefix[i].key@ == last.key@;
                    assert(nodes[i].key@ == nodes[nodes.len() - 1].key@);
                }
            }
            assert forall|i: int| 0 <= i < nodes.len() implies node_entries(
                nodes,
            )[#[trigger] nodes[i].key@] == nodes[i].value by {
                if i < prefix.len() {
                    assert(prefix[i].key@ == nodes[i].key@);
                    assert(nodes[i].key@ != nodes[nodes.len() - 1].key@);
                }
            }
        }
    }
}

proof fn lemma_node_entries_same_contents(a: Seq<Node>, b: Seq<Node>)
    requires
        same_contents(a, b),
    ensures
        node_entries(a) == node_entries(b),
    decreases a.len(),
{
    if a.len() > 0 {
        assert(same_contents(a.drop_last(), b.drop_last())) by {
            assert forall|i: int| 0 <= i < a.drop_last().len() implies (#[trigger] a.drop_last()[i]).key@
                == b.drop_last()[i].key@ && a.drop_last()[i].value == b.drop_last()[i].value by {
                assert(a[i].key@ == b[i].key@);
            }
        }
        lemma_node_entries_same_contents(a.drop_last(), b.drop_last());
        assert(a.last().key@ == b.last().key@);
    }
}

proof fn lemma_node_entries_push(nodes: Seq<Node>, node: Node)
    ensures
        node_entries(nodes.push(node)) == node_entries(nodes).insert(node.key@, node.value),
{
    assert(nodes.push(node).drop_last() =~= nodes);
}

proof fn lemma_node_entries_set_value(nodes: Seq<Node>, i: int, node: Node)
    requires
        0 <= i < nodes.len(),
        distinct_keys(nodes),
        node.key@ == nodes[i].key@,
    ensures
        node_entries(nodes.update(i, node)) == node_entries(nodes).insert(node.key@, node.value),
    decreases nodes.len(),
{
    let updated = nodes.update(i, node);
    if i == nodes.len() - 1 {
        assert(updated.drop_last() =~= nodes.drop_last());
        assert(node_entries(updated) =~= node_entries(nodes).insert(node.key@, node.value));
    } else {
        let prefix = nodes.drop_last();
        assert(distinct_keys(prefix)) by {
            assert forall|a: int, b: int|
                0 <= a < prefix.len() && 0 <= b < prefix.len() && a != b implies #[trigger] prefix[a].key@
                != #[trigger] prefix[b].key@ by {
                assert(nodes[a].key@ != nodes[b].key@);
            }
        }
        lemma_node_entries_set_value(prefix, i, node);
        assert(updated.drop_last() =~= prefix.update(i, node));
        assert(nodes[i].key@ != nodes[nodes.len() - 1].key@);
        assert(node_entries(updated) =~= node_entries(nodes).insert(node.key@, node.value));
    }
}

/// One xorshift step of the height generator.
pub open spec fn xorshift(state: u64) -> u64 {
    let a = state ^ (state << 13u64);
    let b = a ^ (a >> 7u64);
    b ^ (b << 17u64)
}

/// The height that the generator draws from `state`, starting at `height`,
/// and the generator's state afterwards: each draw whose two low bits are
/// zero adds a level, up to `MAX_HEIGHT`.
pub open spec fn draw_height(state: u64, height: nat) -> (nat, u64)
    decreases MAX_HEIGHT - height,
{
    if height >= MAX_HEIGHT {
        (height, state)
    } else {
        let next = xorshift(state);
        if next & 3u64 != 0 {
            (height, next)
        } else {
            draw_height(next, height + 1)
        }
    }
}

/// A skip list of keys in the comparator's order, holding each key's latest
/// entry. Nodes live in an arena and link to each other by index.
#[derive(Debug, Clone)]
pub struct SkipListMemTable<C = BytewiseComparator> {
    comparator: C,
    head: Vec<Option<usize>>,
    nodes: Vec<Node>,
    height: usize,
    len: usize,
    rng_state: u64,
}

impl<C: Comparator> SkipListMemTable<C> {
    /// The table's contents: each stored key maps to its entry.
    pub closed spec fn contents(&self) -> Map<Seq<u8>, EntryValue> {
        node_entries(self.nodes@)
    }

    /// The number of levels in use: the height of the tallest node, and at
    /// least one.
    pub closed spec fn levels_in_use(&self) -> nat {
        self.height as nat
    }

    /// The state of the generator that draws the heights of new nodes.
    pub closed spec fn generator_state(&self) -> u64 {
        self.rng_state
    }

    /// The links that leave the head, one per level.
    pub closed spec fn head_links(&self) -> Seq<Option<usize>> {
        self.head@
    }

    /// The comparator that orders the table's keys.
    pub closed spec fn key_comparator(&self) -> C {
        self.comparator
    }

    spec fn key_of(&self, i: int) -> Seq<u8> {
        self.nodes@[i].key@
    }

    spec fn levels_of(&self, i: int) -> int {
        self.nodes@[i].next@.len() as int
    }

    spec fn precedes(&self, a: Seq<u8>, b: Seq<u8>) -> bool {
        self.comparator.precedes(a, b)
    }

    /// The link at `level` that leaves `from`: the head when `from` is
    /// `None`, node `from` otherwise.
    spec fn link(&self, level: int, from: Option<usize>) -> Option<usize> {
        match from {
            None => self.head@[level],
            Some(i) => self.nodes@[i as int].next@[level],
        }
    }

    /// Node `m` stands on `level` and sorts after `from`.
    spec fn reaches(&self, level: int, from: Option<usize>, m: int) -> bool {
        &&& 0 <= m < self.nodes@.len()
        &&& level < self.levels_of(m)
        &&& match from {
            None => true,
            Some(i) => self.precedes(self.key_of(i as int), self.key_of(m)),
        }
    }

    /// The link at `level` from `from` leads to the first node after `from`
    /// on that level, or is empty when there is none.
    spec fn link_ok(&self, level: int, from: Option<usize>) -> bool {
        match self.link(level, from) {
            Some(j) => {
                &&& self.reaches(level, from, j as int)
                &&& forall|m: int| #[trigger]
                    self.reaches(level, from, m) ==> !self.precedes(
                        self.key_of(m),
                        self.key_of(j as int),
                    )
            },
            None => forall|m: int| !#[trigger] self.reaches(level, from, m),
        }
    }

    /// `from` is the last position on `level` that sorts before `key`.
    spec fn is_pred(&self, level: int, from: Option<usize>, key: Seq<u8>) -> bool {
        &&& from matches Some(i) ==> {
            &&& i < self.nodes@.len()
            &&& level < self.levels_of(i as int)
            &&& self.precedes(self.key_of(i as int), key)
        }
        &&& forall|m: int| #[trigger]
            self.reaches(level, from, m) ==> !self.precedes(self.key_of(m), key)
    }

    /// The skip list's invariant.
    pub closed spec fn valid(&self) -> bool {
        &&& self.head@.len() == MAX_HEIGHT
        &&& 1 <= self.height <= MAX_HEIGHT
        &&& self.len == self.nodes@.len()
        &&& forall|i: int|
            0 <= i < self.nodes@.len() ==> 1 <= #[trigger] self.levels_of(i) <= self.height
        &&& forall|i: int| 0 <= i < self.nodes@.len() ==> #[trigger] self.key_of(i).len() > 0
        &&& distinct_keys(self.nodes@)
        &&& forall|level: int| 0 <= level < MAX_HEIGHT ==> #[trigger] self.link_ok(level, None)
        &&& forall|i: usize, level: int|
            i < self.nodes@.len() && 0 <= level < self.levels_of(i as int) ==> #[trigger] self.link_ok(
                level,
                Some(i),
            )
    }

    /// Makes an empty table that orders its keys by `comparator`.
    pub fn with_comparator(comparator: C) -> (r: Self)
        ensures
            r.valid(),
            r.contents() == Map::<Seq<u8>, EntryValue>::empty(),
            r.key_comparator() == comparator,
            r.levels_in_use() == 1,
            r.generator_state() == INITIAL_GENERATOR_STATE,
            r.head_links() == Seq::new(MAX_HEIGHT as nat, |i: int| None::<usize>),
    {
        let mut head: Vec<Option<usize>> = Vec::new();
        let mut i: usize = 0;
        while i < MAX_HEIGHT
            invariant
                i <= MAX_HEIGHT,
                head@ == Seq::new(i as nat, |j: int| None::<usize>),
            decreases MAX_HEIGHT - i,
        {
            head.push(None);
            i = i + 1;
            assert(head@ =~= Seq::new(i as nat, |j: int| None::<usize>));
        }
        let r = SkipListMemTable {
            comparator,
            head,
            nodes: Vec::new(),
            height: 1,
            len: 0,
            rng_state: INITIAL_GENERATOR_STATE,
        };
        assert(r.contents() =~= Map::<Seq<u8>, EntryValue>::empty());
        r
    }

    /// Refuses an empty key.
    fn validate_key(key: &[u8]) -> (r: Result<()>)
        ensures
            key@.len() > 0 ==> r is Ok,
            key@.len() == 0 ==> r matches Err(DbError::EmptyKey),
    {
        if key.len() == 0 {
            return Err(DbError::EmptyKey);
        }
        Ok(())
    }

    /// The link at `level` that leaves `current`.
    fn next_index(&self, current: Option<usize>, level: usize) -> (r: Option<usize>)
        requires
            self.head@.len() == MAX_HEIGHT,
            level < MAX_HEIGHT,
            current matches Some(i) ==> i < self.nodes@.len() && level < self.levels_of(i as int),
        ensures
            r == self.link(level as int, current),
    {
        match current {
            None => self.head[level],
            Some(index) => self.nodes[index].next[level],
        }
    }

    /// Points the link at `level` that leaves `current` to `next`.
    fn set_next(&mut self, current: Option<usize>, level: usize, next: Option<usize>)
        requires
            old(self).head@.len() == MAX_HEIGHT,
            level < MAX_HEIGHT,
            current matches Some(i) ==> i < old(self).nodes@.len() && level < old(
                self,
            ).levels_of(i as int),
        ensures
            final(self).comparator == old(self).comparator,
            final(self).height == old(self).height,
            final(self).len == old(self).len,
            final(self).rng_state == old(self).rng_state,
            final(self).head@ == (if current is None {
                old(self).head@.update(level as int, next)
            } else {
                old(self).head@
            }),
            final(self).nodes@.len() == old(self).nodes@.len(),
            forall|i: usize|
                i < old(self).nodes@.len() ==> {
                    &&& (#[trigger] final(self).nodes@[i as int]).key == old(self).nodes@[i as int].key
                    &&& final(self).nodes@[i as int].value == old(self).nodes@[i as int].value
                    &&& final(self).nodes@[i as int].next@ == (if current == Some(i) {
                        old(self).nodes@[i as int].next@.update(level as int, next)
                    } else {
                        old(self).nodes@[i as int].next@
                    })
                },
    {
        match current {
            None => {
                self.head[level] = next;
            },
            Some(index) => {
                self.nodes[index].next[level] = next;
                assert(self.nodes@[index as int].next@ =~= old(self).nodes@[index as int].next@.update(
                    level as int,
                    next,
                ));
                assert forall|i: usize| i < old(self).nodes@.len() && i != index implies self.nodes@[i as int]
                    == old(self).nodes@[i as int] by {}
            },
        }
    }

    /// The nodes that stand on `level` and sort after `from`.
    spec fn successors(&self, level: int, from: Option<usize>) -> Set<int> {
        Set::new(|m: int| self.reaches(level, from, m))
    }

    /// Moving along a level to a node that sorts after `from` leaves fewer
    /// nodes ahead.
    proof fn lemma_successors_shrink(&self, level: int, from: Option<usize>, j: usize)
        requires
            self.reaches(level, from, j as int),
        ensures
            self.successors(level, from).finite(),
            self.successors(level, Some(j)).len() < self.successors(level, from).len(),
    {
        self.comparator.lemma_strict_total_order();
        let n = self.nodes@.len() as int;
        let big = self.successors(level, from);
        let small = self.successors(level, Some(j));
        vstd::set_lib::lemma_int_range(0, n);
        assert(big.subset_of(vstd::set_lib::set_int_range(0, n)));
        vstd::set_lib::lemma_len_subset(big, vstd::set_lib::set_int_range(0, n));
        assert forall|m: int| small.contains(m) implies big.remove(j as int).contains(m) by {
            assert(self.reaches(level, Some(j), m));
            if let Some(i) = from {
                assert(self.precedes(self.key_of(i as int), self.key_of(j as int)));
                assert(self.precedes(self.key_of(j as int), self.key_of(m)));
            }
        }
        assert(big.contains(j as int));
        vstd::set_lib::lemma_len_subset(small, big.remove(j as int));
    }

    /// For each level, the last position on it whose key sorts before `key`:
    /// where a new node for `key` is linked in.
    fn find_preprocessor(&self, key: &[u8]) -> (update: [Option<usize>; MAX_HEIGHT])
        requires
            self.valid(),
        ensures
            forall|level: int|
                0 <= level < MAX_HEIGHT ==> #[trigger] self.is_pred(level, update[level], key@),
    {
        proof {
            self.comparator.lemma_strict_total_order();
        }
        let mut update: [Option<usize>; MAX_HEIGHT] = [None; MAX_HEIGHT];
        let mut current: Option<usize> = None;
        let mut level: usize = self.height;
        while level > 0
            invariant
                self.valid(),
                level <= self.height,
                self.is_pred(level as int, current, key@),
                forall|l: int| level <= l < MAX_HEIGHT ==> #[trigger] self.is_pred(l, update[l], key@),
            decreases level,
        {
            level = level - 1;
            loop
                invariant
                    self.valid(),
                    level < self.height,
                    current matches Some(i) ==> {
                        &&& i < self.nodes@.len()
                        &&& level < self.levels_of(i as int)
                        &&& self.precedes(self.key_of(i as int), key@)
                    },
                ensures
                    self.is_pred(level as int, current, key@),
                decreases self.successors(level as int, current).len(),
            {
                assert(self.link_ok(level as int, current));
                let next = self.next_index(current, level);
                match next {
                    None => {
                        break ;
                    },
                    Some(j) => {
                        match self.comparator.order(self.nodes[j].key.as_slice(), key) {
                            KeyOrder::Less => {
                                proof {
                                    self.lemma_successors_shrink(level as int, current, j);
                                }
                                current = Some(j);
                            },
                            _ => {
                                assert forall|m: int| #[trigger]
                                    self.reaches(level as int, current, m) implies !self.precedes(
                                    self.key_of(m),
                                    key@,
                                ) by {
                                    self.comparator.lemma_strict_total_order();
                                    if self.precedes(self.key_of(m), key@) {
                                        assert(!self.precedes(self.key_of(m), self.key_of(j as int)));
                                        if self.key_of(m) != self.key_of(j as int) {
                                            assert(self.precedes(self.key_of(j as int), self.key_of(m)));
                                        }
                                    }
                                }
                                break ;
                            },
                        }
                    },
                }
            }
            update[level] = current;
            assert(forall|l: int|
                level <= l < MAX_HEIGHT ==> #[trigger] self.is_pred(l, update[l], key@));
        }
        update
    }

    /// The node whose key is `key`, if any, given the positions before `key`.
    fn find_existing_index(&self, key: &[u8], update: &[Option<usize>; MAX_HEIGHT]) -> (r: Option<
        usize,
    >)
        requires
            self.valid(),
            self.is_pred(0, update[0], key@),
        ensures
            match r {
                Some(i) => i < self.nodes@.len() && self.key_of(i as int) == key@,
                None => forall|i: int| 0 <= i < self.nodes@.len() ==> self.key_of(i) != key@,
            },
    {
        proof {
            self.comparator.lemma_strict_total_order();
        }
        assert(self.link_ok(0, update[0]));
        let next = match self.next_index(update[0], 0) {
            Some(next) => next,
            None => {
                assert forall|i: int| 0 <= i < self.nodes@.len() implies self.key_of(i) != key@ by {
                    assert(self.levels_of(i) >= 1);
                    if self.key_of(i) == key@ {
                        assert(self.reaches(0, update[0], i));
                    }
                }
                return None;
            },
        };
        match self.comparator.order(self.nodes[next].key.as_slice(), key) {
            KeyOrder::Equal => Some(next),
            _ => {
                assert forall|i: int| 0 <= i < self.nodes@.len() implies self.key_of(i) != key@ by {
                    assert(self.levels_of(i) >= 1);
                    if self.key_of(i) == key@ {
                        assert(self.reaches(0, update[0], i));
                        assert(!self.precedes(self.key_of(i), self.key_of(next as int)));
                    }
                }
                None
            },
        }
    }

    /// Advances the height generator by one xorshift step.
    fn next_random(&mut self) -> (r: u64)
        ensures
            r == xorshift(old(self).rng_state),
            final(self).rng_state == r,
            final(self).comparator == old(self).comparator,
            final(self).head == old(self).head,
            final(self).nodes == old(self).nodes,
            final(self).height == old(self).height,
            final(self).len == old(self).len,
    {
        let mut value = self.rng_state;
        value ^= value << 13;
        value ^= value >> 7;
        value ^= value << 17;
        self.rng_state = value;
        value
    }

    /// Draws the height of a new node.
    fn random_height(&mut self) -> (r: usize)
        ensures
            1 <= r <= MAX_HEIGHT,
            (r as nat, final(self).rng_state) == draw_height(old(self).rng_state, 1),
            final(self).comparator == old(self).comparator,
            final(self).head == old(self).head,
            final(self).nodes == old(self).nodes,
            final(self).height == old(self).height,
            final(self).len == old(self).len,
    {
        let mut height: usize = 1;
        loop
            invariant_except_break
                draw_height(self.rng_state, height as nat) == draw_height(
                    old(self).rng_state,
                    1,
                ),
            invariant
                1 <= height <= MAX_HEIGHT,
                self.comparator == old(self).comparator,
                self.head == old(self).head,
                self.nodes == old(self).nodes,
                self.height == old(self).height,
                self.len == old(self).len,
            ensures
                1 <= height <= MAX_HEIGHT,
                (height as nat, self.rng_state) == draw_height(old(self).rng_state, 1),
                self.comparator == old(self).comparator,
                self.head == old(self).head,
                self.nodes == old(self).nodes,
                self.height == old(self).height,
                self.len == old(self).len,
            decreases MAX_HEIGHT - height,
        {
            if height >= MAX_HEIGHT {
                break ;
            }
            let drawn = self.next_random();
            if drawn & 0b11 != 0 {
                break ;
            }
            height += 1;
        }
        height
    }

    /// `post` is `pre` with a node of `h` levels appended and linked in
    /// after the positions `update`.
    spec fn insert_shape(pre: Self, post: Self, update: Seq<Option<usize>>, h: int, n: usize) -> bool {
        &&& n == pre.nodes@.len()
        &&& post.comparator == pre.comparator
        &&& post.height == pre.height
        &&& post.len == n + 1
        &&& post.head@.len() == MAX_HEIGHT
        &&& post.nodes@.len() == n + 1
        &&& update.len() == MAX_HEIGHT
        &&& 1 <= h <= pre.height
        &&& post.levels_of(n as int) == h
        &&& post.key_of(n as int).len() > 0
        &&& forall|l: int| 0 <= l < h ==> pre.is_pred(l, #[trigger] update[l], post.key_of(n as int))
        &&& forall|i: int| 0 <= i < n ==> pre.key_of(i) != post.key_of(n as int)
        &&& forall|i: int|
            0 <= i < n ==> {
                &&& #[trigger] post.key_of(i) == pre.key_of(i)
                &&& post.levels_of(i) == pre.levels_of(i)
            }
        &&& forall|i: usize, l: int|
            i < n && 0 <= l < pre.levels_of(i as int) ==> #[trigger] post.link(l, Some(i)) == (if l
                < h && update[l] == Some(i) {
                Some(n)
            } else {
                pre.link(l, Some(i))
            })
        &&& forall|l: int|
            0 <= l < h ==> #[trigger] post.link(l, Some(n)) == pre.link(l, update[l])
        &&& forall|l: int|
            0 <= l < MAX_HEIGHT ==> #[trigger] post.link(l, None) == (if l < h && update[l] is None {
                Some(n)
            } else {
                pre.link(l, None)
            })
    }

    /// Linking a new node in after its predecessors keeps the link of
    /// level `l` that leaves an old position (or the head) correct.
    proof fn lemma_insert_link_old(
        pre: Self,
        post: Self,
        update: Seq<Option<usize>>,
        h: int,
        l: int,
        from: Option<usize>,
        n: usize,
    )
        requires
            pre.valid(),
            Self::insert_shape(pre, post, update, h, n),
            0 <= l < MAX_HEIGHT,
            from matches Some(i) ==> i < pre.nodes@.len() && l < pre.levels_of(i as int),
        ensures
            post.link_ok(l, from),
    {
        pre.comparator.lemma_strict_total_order();
        let k = post.key_of(n as int);
        assert(pre.link_ok(l, from));
        if let Some(i) = from {
            assert(post.link(l, Some(i)) == (if l < h && update[l] == Some(i) {
                Some(n)
            } else {
                pre.link(l, Some(i))
            }));
        } else {
            assert(post.link(l, None) == (if l < h && update[l] is None {
                Some(n)
            } else {
                pre.link(l, None)
            }));
        }
        // Reaching an old node is as before.
        assert forall|m: int| 0 <= m < n implies #[trigger] post.reaches(l, from, m) == pre.reaches(
            l,
            from,
            m,
        ) by {
            assert(post.key_of(m) == pre.key_of(m));
            if let Some(i) = from {
                assert(post.key_of(i as int) == pre.key_of(i as int));
            }
        }
        let follows = match from {
            None => true,
            Some(i) => pre.precedes(pre.key_of(i as int), k),
        };
        if let Some(i) = from {
            assert(post.key_of(i as int) == pre.key_of(i as int));
        }
        assert(post.reaches(l, from, n as int) == (l < h && follows));
        if l < h && update[l] == from {
            assert(pre.is_pred(l, update[l], k));
            assert(post.link(l, from) == Some(n));
            assert forall|m: int| #[trigger]
                post.reaches(l, from, m) implies !post.precedes(post.key_of(m), post.key_of(n as int)) by {
                if m < n {
                    assert(pre.reaches(l, from, m));
                }
            }
        } else if l < h && follows {
            assert(pre.is_pred(l, update[l], k));
            // Some old node on this level lies between `from` and the new key.
            let u = update[l];
            match from {
                None => {
                    let ui = u.unwrap();
                    assert(pre.reaches(l, None, ui as int));
                },
                Some(i) => {
                    assert(pre.levels_of(i as int) > l);
                    if u is None {
                        assert(pre.reaches(l, u, i as int));
                    } else {
                        let ui = u.unwrap();
                        if pre.precedes(pre.key_of(ui as int), pre.key_of(i as int)) {
                            assert(pre.reaches(l, u, i as int));
                        }
                        assert(ui != i);
                        assert(pre.key_of(ui as int) != pre.key_of(i as int));
                        assert(pre.reaches(l, from, ui as int));
                    }
                },
            }
            let ui = u.unwrap();
            let j = pre.link(l, from).unwrap();
            assert(pre.reaches(l, from, ui as int));
            assert(!pre.precedes(pre.key_of(ui as int), pre.key_of(j as int)));
            assert(pre.precedes(pre.key_of(j as int), k)) by {
                if pre.key_of(ui as int) != pre.key_of(j as int) {
                    assert(pre.precedes(pre.key_of(j as int), pre.key_of(ui as int)));
                }
            }
            assert(post.link(l, from) == Some(j));
            assert(post.reaches(l, from, j as int));
            assert forall|m: int| #[trigger]
                post.reaches(l, from, m) implies !post.precedes(
                post.key_of(m),
                post.key_of(j as int),
            ) by {
                if m < n {
                    assert(pre.reaches(l, from, m));
                }
            }
        } else {
            assert(post.link(l, from) == pre.link(l, from));
            match pre.link(l, from) {
                Some(j) => {
                    assert(post.reaches(l, from, j as int));
                    assert forall|m: int| #[trigger]
                        post.reaches(l, from, m) implies !post.precedes(
                        post.key_of(m),
                        post.key_of(j as int),
                    ) by {
                        assert(m < n);
                        assert(pre.reaches(l, from, m));
                    }
                },
                None => {
                    assert forall|m: int| !#[trigger] post.reaches(l, from, m) by {
                        if post.reaches(l, from, m) {
                            assert(m < n);
                            assert(pre.reaches(l, from, m));
                        }
                    }
                },
            }
        }
    }

    /// The links that leave the new node are correct.
    proof fn lemma_insert_link_new(
        pre: Self,
        post: Self,
        update: Seq<Option<usize>>,
        h: int,
        l: int,
        n: usize,
    )
        requires
            pre.valid(),
            Self::insert_shape(pre, post, update, h, n),
            0 <= l < h,
        ensures
            post.link_ok(l, Some(n)),
    {
        pre.comparator.lemma_strict_total_order();
        let k = post.key_of(n as int);
        let u = update[l];
        assert(pre.is_pred(l, u, k));
        assert(pre.link_ok(l, u));
        assert(post.link(l, Some(n)) == pre.link(l, u));
        // A node after the new one on this level is after `u` too.
        assert forall|m: int| #[trigger] post.reaches(l, Some(n), m) implies m < n
            && pre.reaches(l, u, m) by {
            assert(post.key_of(m) == pre.key_of(m) || m == n);
            if m < n {
                assert(post.key_of(m) == pre.key_of(m));
                if let Some(ui) = u {
                    assert(pre.precedes(pre.key_of(ui as int), k));
                }
            }
        }
        match pre.link(l, u) {
            Some(j) => {
                assert(pre.reaches(l, u, j as int));
                assert(pre.key_of(j as int) != k);
                assert(post.key_of(j as int) == pre.key_of(j as int));
                assert(post.reaches(l, Some(n), j as int));
                assert forall|m: int| #[trigger]
                    post.reaches(l, Some(n), m) implies !post.precedes(
                    post.key_of(m),
                    post.key_of(j as int),
                ) by {
                    assert(pre.reaches(l, u, m));
                    assert(post.key_of(m) == pre.key_of(m));
                }
            },
            None => {
                assert forall|m: int| !#[trigger] post.reaches(l, Some(n), m) by {
                    if post.reaches(l, Some(n), m) {
                        assert(pre.reaches(l, u, m));
                    }
                }
            },
        }
    }

    /// Linking a new node in after its predecessors keeps the skip list
    /// well formed.
    proof fn lemma_insert_well_formed(pre: Self, post: Self, update: Seq<Option<usize>>, h: int, n: usize)
        requires
            pre.valid(),
            Self::insert_shape(pre, post, update, h, n),
        ensures
            post.valid(),
    {
        assert forall|i: int| 0 <= i < post.nodes@.len() implies 1 <= #[trigger] post.levels_of(i)
            <= post.height by {
            if i < n {
                assert(post.key_of(i) == pre.key_of(i));
            }
        }
        assert forall|i: int| 0 <= i < post.nodes@.len() implies #[trigger] post.key_of(i).len()
            > 0 by {
            if i < n {
                assert(post.key_of(i) == pre.key_of(i));
            }
        }
        assert(distinct_keys(post.nodes@)) by {
            assert forall|i: int, j: int|
                0 <= i < post.nodes@.len() && 0 <= j < post.nodes@.len() && i != j implies #[trigger] post.nodes@[i].key@
                != #[trigger] post.nodes@[j].key@ by {
                if i < n {
                    assert(post.key_of(i) == pre.key_of(i));
                }
                if j < n {
                    assert(post.key_of(j) == pre.key_of(j));
                }
                if i < n && j < n {
                    assert(pre.nodes@[i].key@ != pre.nodes@[j].key@);
                }
            }
        }
        assert forall|l: int| 0 <= l < MAX_HEIGHT implies #[trigger] post.link_ok(l, None) by {
            Self::lemma_insert_link_old(pre, post, update, h, l, None, n);
        }
        assert forall|i: usize, l: int|
            i < post.nodes@.len() && 0 <= l < post.levels_of(i as int) implies #[trigger] post.link_ok(
            l,
            Some(i),
        ) by {
            if i < n {
                assert(post.key_of(i as int) == pre.key_of(i as int));
                Self::lemma_insert_link_old(pre, post, update, h, l, Some(i), n);
            } else {
                Self::lemma_insert_link_new(pre, post, update, h, l, n);
            }
        }
    }


    /// The invariant does not depend on the height generator's state, and
    /// survives raising the height.
    proof fn lemma_well_formed_frame(a: Self, b: Self)
        requires
            a.valid(),
            b.comparator == a.comparator,
            b.head == a.head,
            b.nodes == a.nodes,
            a.height <= b.height <= MAX_HEIGHT,
            b.len == a.len,
        ensures
            b.valid(),
    {
        assert forall|i: int| 0 <= i < b.nodes@.len() implies 1 <= #[trigger] b.levels_of(i)
            <= b.height by {
            assert(a.levels_of(i) == b.levels_of(i));
        }
        assert forall|i: int| 0 <= i < b.nodes@.len() implies #[trigger] b.key_of(i).len() > 0 by {
            assert(a.key_of(i) == b.key_of(i));
        }
        assert forall|l: int| 0 <= l < MAX_HEIGHT implies #[trigger] b.link_ok(l, None) by {
            assert(a.link_ok(l, None));
            assert forall|m: int| #[trigger] b.reaches(l, None, m) == a.reaches(l, None, m) by {}
        }
        assert forall|i: usize, l: int|
            i < b.nodes@.len() && 0 <= l < b.levels_of(i as int) implies #[trigger] b.link_ok(
            l,
            Some(i),
        ) by {
            assert(a.link_ok(l, Some(i)));
            assert forall|m: int| #[trigger] b.reaches(l, Some(i), m) == a.reaches(l, Some(i), m) by {}
        }
    }


    /// Positions, links and predecessors depend only on the comparator, the
    /// head and the nodes.
    proof fn lemma_same_shape(a: Self, b: Self)
        requires
            b.comparator == a.comparator,
            b.head == a.head,
            b.nodes == a.nodes,
        ensures
            forall|l: int, from: Option<usize>, m: int| #[trigger]
                b.reaches(l, from, m) == a.reaches(l, from, m),
            forall|l: int, from: Option<usize>| #[trigger] b.link_ok(l, from) == a.link_ok(l, from),
            forall|l: int, from: Option<usize>, key: Seq<u8>| #[trigger]
                b.is_pred(l, from, key) == a.is_pred(l, from, key),
    {
        assert forall|i: int| #[trigger] b.key_of(i) == a.key_of(i) by {}
        assert forall|i: int| #[trigger] b.levels_of(i) == a.levels_of(i) by {}
        assert forall|x: Seq<u8>, y: Seq<u8>| #[trigger] b.precedes(x, y) == a.precedes(x, y) by {}
        assert forall|l: int, from: Option<usize>, m: int| #[trigger]
            b.reaches(l, from, m) == a.reaches(l, from, m) by {
            if let Some(i) = from {
                assert(b.key_of(i as int) == a.key_of(i as int));
            }
            assert(b.key_of(m) == a.key_of(m));
        }
        assert forall|l: int, from: Option<usize>| #[trigger] b.link_ok(l, from) == a.link_ok(
            l,
            from,
        ) by {
            assert(b.link(l, from) == a.link(l, from));
            match a.link(l, from) {
                Some(j) => {
                    assert(b.reaches(l, from, j as int) == a.reaches(l, from, j as int));
                    assert(b.key_of(j as int) == a.key_of(j as int));
                    if a.link_ok(l, from) {
                        assert forall|m: int| #[trigger] b.reaches(l, from, m) implies !b.precedes(
                            b.key_of(m),
                            b.key_of(j as int),
                        ) by {
                            assert(a.reaches(l, from, m));
                            assert(b.key_of(m) == a.key_of(m));
                        }
                    }
                    if b.link_ok(l, from) {
                        assert forall|m: int| #[trigger] a.reaches(l, from, m) implies !a.precedes(
                            a.key_of(m),
                            a.key_of(j as int),
                        ) by {
                            assert(b.reaches(l, from, m));
                            assert(b.key_of(m) == a.key_of(m));
                        }
                    }
                },
                None => {
                    if a.link_ok(l, from) {
                        assert forall|m: int| !#[trigger] b.reaches(l, from, m) by {
                            assert(!a.reaches(l, from, m));
                        }
                    }
                    if b.link_ok(l, from) {
                        assert forall|m: int| !#[trigger] a.reaches(l, from, m) by {
                            assert(!b.reaches(l, from, m));
                        }
                    }
                },
            }
        }
        assert forall|l: int, from: Option<usize>, key: Seq<u8>| #[trigger]
            b.is_pred(l, from, key) == a.is_pred(l, from, key) by {
            if let Some(i) = from {
                assert(b.key_of(i as int) == a.key_of(i as int));
                assert(b.levels_of(i as int) == a.levels_of(i as int));
            }
            if a.is_pred(l, from, key) {
                assert forall|m: int| #[trigger] b.reaches(l, from, m) implies !b.precedes(
                    b.key_of(m),
                    key,
                ) by {
                    assert(a.reaches(l, from, m));
                    assert(b.key_of(m) == a.key_of(m));
                }
            }
            if b.is_pred(l, from, key) {
                assert forall|m: int| #[trigger] a.reaches(l, from, m) implies !a.precedes(
                    a.key_of(m),
                    key,
                ) by {
                    assert(b.reaches(l, from, m));
                    assert(b.key_of(m) == a.key_of(m));
                }
            }
        }
    }

    /// Maps `key` to `value`: overwrites the entry of a stored key, or links
    /// in a new node of random height.
    fn insert_entry(&mut self, key: Key, value: EntryValue) -> (r: Result<()>)
        requires
            old(self).valid(),
        ensures
            final(self).valid(),
            final(self).comparator == old(self).comparator,
            key@.len() == 0 ==> (r matches Err(DbError::EmptyKey)) && *final(self) == *old(self),
            key@.len() > 0 ==> r is Ok && final(self).contents() == old(self).contents().insert(
                key@,
                value,
            ),
            // Overwriting a stored key changes that node's entry and nothing else.
            key@.len() > 0 && old(self).contents().contains_key(key@) ==> {
                &&& final(self).head == old(self).head
                &&& final(self).height == old(self).height
                &&& final(self).len == old(self).len
                &&& final(self).rng_state == old(self).rng_state
                &&& final(self).nodes@.len() == old(self).nodes@.len()
                &&& forall|i: int|
                    0 <= i < old(self).nodes@.len() ==> {
                        &&& (#[trigger] final(self).nodes@[i]).key == old(self).nodes@[i].key
                        &&& final(self).nodes@[i].next == old(self).nodes@[i].next
                        &&& final(self).nodes@[i].value == (if old(self).nodes@[i].key@ == key@ {
                            value
                        } else {
                            old(self).nodes@[i].value
                        })
                    }
            },
            // A new key gets a new last node, of the height the generator draws.
            key@.len() > 0 && !old(self).contents().contains_key(key@) ==> {
                let drawn = draw_height(old(self).rng_state, 1);
                &&& final(self).nodes@.len() == old(self).nodes@.len() + 1
                &&& final(self).len == old(self).len + 1
                &&& forall|i: int|
                    0 <= i < old(self).nodes@.len() ==> {
                        &&& (#[trigger] final(self).nodes@[i]).key == old(self).nodes@[i].key
                        &&& final(self).nodes@[i].value == old(self).nodes@[i].value
                    }
                &&& final(self).nodes@.last().key@ == key@
                &&& final(self).nodes@.last().value == value
                &&& final(self).nodes@.last().next@.len() == drawn.0
                &&& final(self).rng_state == drawn.1
                &&& final(self).height == (if drawn.0 > old(self).height {
                    drawn.0
                } else {
                    old(self).height as nat
                })
            },
    {
        let ghost given_value = value;
        let ghost key_view = key@;
        match Self::validate_key(&key) {
            Ok(()) => {},
            Err(err) => {
                return Err(err);
            },
        }
        let mut update = self.find_preprocessor(&key);
        if let Some(existing_index) = self.find_existing_index(&key, &update) {
            let ghost before = *self;
            self.nodes[existing_index].value = value;
            proof {
                assert(self.nodes@ == before.nodes@.update(
                    existing_index as int,
                    self.nodes@[existing_index as int],
                ));
                lemma_node_entries_set_value(
                    before.nodes@,
                    existing_index as int,
                    self.nodes@[existing_index as int],
                );
                assert forall|i: int| 0 <= i < self.nodes@.len() implies #[trigger] self.key_of(i)
                    == before.key_of(i) by {}
                assert forall|i: int| 0 <= i < self.nodes@.len() implies #[trigger] self.levels_of(i)
                    == before.levels_of(i) by {}
                assert forall|l: int| 0 <= l < MAX_HEIGHT implies #[trigger] self.link_ok(l, None) by {
                    assert(before.link_ok(l, None));
                    assert forall|m: int| #[trigger]
                        self.reaches(l, None, m) == before.reaches(l, None, m) by {}
                }
                assert forall|i: usize, l: int|
                    i < self.nodes@.len() && 0 <= l < self.levels_of(i as int) implies #[trigger] self.link_ok(
                    l,
                    Some(i),
                ) by {
                    assert(before.link_ok(l, Some(i)));
                    assert(self.link(l, Some(i)) == before.link(l, Some(i)));
                    assert forall|m: int| #[trigger]
                        self.reaches(l, Some(i), m) == before.reaches(l, Some(i), m) by {}
                }
                assert(distinct_keys(self.nodes@)) by {
                    assert forall|i: int, j: int|
                        0 <= i < self.nodes@.len() && 0 <= j < self.nodes@.len() && i != j implies #[trigger] self.nodes@[i].key@
                        != #[trigger] self.nodes@[j].key@ by {
                        assert(before.nodes@[i].key@ != before.nodes@[j].key@);
                    }
                }
                lemma_node_entries_facts(before.nodes@);
                assert(before.contents().contains_key(key_view));
                assert forall|i: int| 0 <= i < before.nodes@.len() implies {
                    &&& (#[trigger] self.nodes@[i]).key == before.nodes@[i].key
                    &&& self.nodes@[i].next == before.nodes@[i].next
                    &&& self.nodes@[i].value == (if before.nodes@[i].key@ == key_view {
                        given_value
                    } else {
                        before.nodes@[i].value
                    })
                } by {
                    if i != existing_index {
                        assert(before.nodes@[i].key@ != before.nodes@[existing_index as int].key@);
                    }
                }
            }
            return Ok(());
        }
        let ghost before_draw = *self;
        let node_height = self.random_height();
        proof {
            Self::lemma_well_formed_frame(before_draw, *self);
            Self::lemma_same_shape(before_draw, *self);
            assert(before_draw == *old(self));
        }
        let ghost drawn = draw_height(old(self).rng_state, 1);
        assert(drawn == (node_height as nat, self.rng_state));
        if node_height > self.height {
            let mut level: usize = self.height;
            while level < node_height
                invariant
                    self.valid(),
                    self.height <= level <= node_height <= MAX_HEIGHT,
                    forall|l: int|
                        0 <= l < MAX_HEIGHT ==> #[trigger] self.is_pred(l, update[l], key@),
                decreases node_height - level,
            {
                update[level] = None;
                assert(self.is_pred(level as int, None, key@));
                level = level + 1;
            }
            let ghost before_raise = *self;
            self.height = node_height;
            proof {
                Self::lemma_same_shape(before_raise, *self);
                Self::lemma_well_formed_frame(before_raise, *self);
            }
        }
        let ghost pre = *self;
        let ghost k = key@;
        assert forall|i: int| 0 <= i < pre.nodes@.len() implies pre.key_of(i) != k by {
            assert(before_draw.key_of(i) != k);
        }
        let mut node = Node::new(key, value, node_height);
        let mut level: usize = 0;
        while level < node_height
            invariant
                *self == pre,
                pre.valid(),
                level <= node_height <= pre.height,
                node.key@ == k,
                node.value == given_value,
                node.next@.len() == node_height,
                forall|l: int| 0 <= l < MAX_HEIGHT ==> #[trigger] pre.is_pred(l, update[l], k),
                forall|l: int| 0 <= l < level ==> #[trigger] node.next@[l] == pre.link(l, update[l]),
                forall|i: int| 0 <= i < pre.nodes@.len() ==> pre.key_of(i) != k,
            decreases node_height - level,
        {
            assert(pre.is_pred(level as int, update[level as int], k));
            let next = self.next_index(update[level], level);
            node.next[level] = next;
            level = level + 1;
        }
        let ghost new_node = node;
        let new_index = self.nodes.len();
        self.nodes.push(node);
        let ghost mid = *self;
        let mut level: usize = 0;
        while level < node_height
            invariant
                pre.valid(),
                node_height <= pre.height,
                mid.nodes@ == pre.nodes@.push(new_node),
                new_index == pre.nodes@.len(),
                mid.head == pre.head,
                self.comparator == pre.comparator,
                self.height == pre.height,
                self.len == pre.len,
                self.rng_state == pre.rng_state,
                self.head@.len() == MAX_HEIGHT,
                self.nodes@.len() == mid.nodes@.len(),
                level <= node_height,
                forall|l: int| 0 <= l < MAX_HEIGHT ==> #[trigger] pre.is_pred(l, update[l], k),
                forall|i: int| 0 <= i < pre.nodes@.len() ==> pre.key_of(i) != k,
                forall|i: usize|
                    i < mid.nodes@.len() ==> {
                        &&& (#[trigger] self.nodes@[i as int]).key == mid.nodes@[i as int].key
                        &&& self.nodes@[i as int].value == mid.nodes@[i as int].value
                        &&& self.nodes@[i as int].next@.len() == mid.nodes@[i as int].next@.len()
                        &&& forall|l: int|
                            0 <= l < self.nodes@[i as int].next@.len() ==> #[trigger] self.nodes@[i as int].next@[l]
                                == (if l < level && update[l] == Some(i) {
                                Some(new_index)
                            } else {
                                mid.nodes@[i as int].next@[l]
                            })
                    },
                forall|l: int|
                    0 <= l < MAX_HEIGHT ==> #[trigger] self.head@[l] == (if l < level
                        && update[l] is None {
                        Some(new_index)
                    } else {
                        mid.head@[l]
                    }),
            decreases node_height - level,
        {
            assert(pre.is_pred(level as int, update[level as int], k));
            if let Some(u) = update[level] {
                assert(self.nodes@[u as int].next@.len() == mid.nodes@[u as int].next@.len());
                assert(mid.nodes@[u as int] == pre.nodes@[u as int]);
            }
            self.set_next(update[level], level, Some(new_index));
            level = level + 1;
        }
        self.len = self.nodes.len();
        proof {
            let post = *self;
            let n = new_index;
            assert forall|i: usize| i < mid.nodes@.len() implies (#[trigger] mid.nodes@[i as int])
                == (if i < n {
                pre.nodes@[i as int]
            } else {
                new_node
            }) by {}
            assert forall|i: int| 0 <= i < n implies #[trigger] post.key_of(i) == pre.key_of(i)
                && post.levels_of(i) == pre.levels_of(i) by {
                assert(mid.nodes@[i] == pre.nodes@[i]);
            }
            assert forall|i: usize, l: int|
                i < n && 0 <= l < pre.levels_of(i as int) implies #[trigger] post.link(l, Some(i)) == (
            if l < node_height && update[l] == Some(i) {
                Some(n)
            } else {
                pre.link(l, Some(i))
            }) by {
                assert(mid.nodes@[i as int] == pre.nodes@[i as int]);
            }
            assert forall|l: int| 0 <= l < node_height implies #[trigger] post.link(
                l,
                Some(n),
            ) == pre.link(l, update[l]) by {
                assert(mid.nodes@[n as int] == new_node);
                assert(pre.is_pred(l, update[l], k));
                assert(update[l] != Some(n));
                assert(new_node.next@[l] == pre.link(l, update[l]));
            }
            assert forall|l: int| 0 <= l < MAX_HEIGHT implies #[trigger] post.link(l, None) == (if l
                < node_height && update[l] is None {
                Some(n)
            } else {
                pre.link(l, None)
            }) by {}
            assert(post.levels_of(n as int) == node_height);
            assert forall|i: int| 0 <= i < n implies pre.key_of(i) != post.key_of(n as int) by {
                assert(pre.key_of(i) != k);
                assert(post.key_of(n as int) == new_node.key@);
            }
            Self::lemma_insert_well_formed(pre, post, update@, node_height as int, n);
            assert(same_contents(post.nodes@, pre.nodes@.push(new_node)));
            lemma_node_entries_same_contents(post.nodes@, pre.nodes@.push(new_node));
            lemma_node_entries_push(pre.nodes@, new_node);
            assert(pre.nodes@ == old(self).nodes@);
            assert(new_node.value == given_value);
            assert(new_node.key@ == key_view);
            lemma_node_entries_facts(old(self).nodes@);
            assert(!old(self).contents().contains_key(key_view)) by {
                if old(self).contents().contains_key(key_view) {
                    let i = choose|i: int|
                        0 <= i < old(self).nodes@.len() && old(self).nodes@[i].key@ == key_view;
                    assert(pre.key_of(i) != k);
                }
            }
            assert(post.nodes@.last() == post.nodes@[n as int]);
            assert forall|i: int| 0 <= i < old(self).nodes@.len() implies {
                &&& (#[trigger] post.nodes@[i]).key == old(self).nodes@[i].key
                &&& post.nodes@[i].value == old(self).nodes@[i].value
            } by {
                assert(mid.nodes@[i] == pre.nodes@[i]);
            }
        }
        Ok(())
    }
}


impl SkipListMemTable<BytewiseComparator> {
    /// Makes an empty table that orders its keys bytewise.
    pub fn new() -> (r: Self)
        ensures
            r.valid(),
            r.contents() == Map::<Seq<u8>, EntryValue>::empty(),
            r.levels_in_use() == 1,
            r.generator_state() == INITIAL_GENERATOR_STATE,
            r.head_links() == Seq::new(MAX_HEIGHT as nat, |i: int| None::<usize>),
    {
        Self::with_comparator(BytewiseComparator)
    }
}

impl Default for SkipListMemTable<BytewiseComparator> {
    /// An empty table that orders its keys bytewise.
    fn default() -> (r: Self)
        ensures
            r.valid(),
            r.contents() == Map::<Seq<u8>, EntryValue>::empty(),
            r.levels_in_use() == 1,
            r.generator_state() == INITIAL_GENERATOR_STATE,
            r.head_links() == Seq::new(MAX_HEIGHT as nat, |i: int| None::<usize>),
    {
        Self::new()
    }
}

impl<C: Comparator> MemTable for SkipListMemTable<C> {
    open spec fn entries(&self) -> Map<Seq<u8>, EntryValue> {
        self.contents()
    }

    open spec fn well_formed(&self) -> bool {
        self.valid()
    }

    fn put(&mut self, key: Key, value: Value) -> (r: Result<()>)
        ensures
            key@.len() == 0 ==> *final(self) == *old(self),
            key@.len() > 0 && old(self).contents().contains_key(key@) ==> {
                &&& final(self).levels_in_use() == old(self).levels_in_use()
                &&& final(self).generator_state() == old(self).generator_state()
                &&& final(self).head_links() == old(self).head_links()
            },
            key@.len() > 0 && !old(self).contents().contains_key(key@) ==> {
                let drawn = draw_height(old(self).generator_state(), 1);
                &&& final(self).generator_state() == drawn.1
                &&& final(self).levels_in_use() == (if drawn.0 > old(self).levels_in_use() {
                    drawn.0
                } else {
                    old(self).levels_in_use()
                })
            },
    {
        self.insert_entry(key, EntryValue::Value(value))
    }

    fn delete(&mut self, key: Key) -> (r: Result<()>)
        ensures
            key@.len() == 0 ==> *final(self) == *old(self),
            key@.len() > 0 && old(self).contents().contains_key(key@) ==> {
                &&& final(self).levels_in_use() == old(self).levels_in_use()
                &&& final(self).generator_state() == old(self).generator_state()
                &&& final(self).head_links() == old(self).head_links()
            },
            key@.len() > 0 && !old(self).contents().contains_key(key@) ==> {
                let drawn = draw_height(old(self).generator_state(), 1);
                &&& final(self).generator_state() == drawn.1
                &&& final(self).levels_in_use() == (if drawn.0 > old(self).levels_in_use() {
                    drawn.0
                } else {
                    old(self).levels_in_use()
                })
            },
    {
        self.insert_entry(key, EntryValue::Tombstone)
    }

    fn get(&mut self, key: &[u8]) -> (r: Option<&EntryValue>)
        ensures
            *final(self) == *old(self),
    {
        let update = self.find_preprocessor(key);
        let index = match self.find_existing_index(key, &update) {
            Some(index) => index,
            None => {
                proof {
                    lemma_node_entries_facts(self.nodes@);
                    if self.contents().contains_key(key@) {
                        let i = choose|i: int|
                            0 <= i < self.nodes@.len() && self.nodes@[i].key@ == key@;
                        assert(self.key_of(i) == key@);
                    }
                }
                return None;
            },
        };
        proof {
            lemma_node_entries_facts(self.nodes@);
            assert(self.nodes@[index as int].key@ == key@);
        }
        Some(&self.nodes[index].value)
    }

    fn len(&self) -> (r: usize) {
        proof {
            lemma_node_entries_facts(self.nodes@);
        }
        self.len
    }
}

} // verus!
