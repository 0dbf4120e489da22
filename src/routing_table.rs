use vstd::prelude::*;
use vstd::string::StringSliceAdditionalSpecFns;
use vstd::utf8::{decode_utf8, encode_utf8};

verus! {

broadcast use vstd::utf8::encode_utf8_decode_utf8;

/// Byte-wise comparison of two string slices; equal bytes mean equal characters.
pub fn str_eq(a: &str, b: &str) -> (r: bool)
    ensures
        r == (a@ == b@),
{
    let x = a.as_bytes();
    let y = b.as_bytes();
    if x.len() != y.len() {
        return false;
    }
    let mut i: usize = 0;
    while i < x.len()
        invariant
            x@ == a.spec_bytes(),
            y@ == b.spec_bytes(),
            x@.len() == y@.len(),
            0 <= i <= x@.len(),
            forall|j: int| 0 <= j < i ==> x@[j] == y@[j],
        decreases x@.len() - i,
    {
        if x[i] != y[i] {
            return false;
        }
        i = i + 1;
    }
    assert(a.spec_bytes() =~= b.spec_bytes());
    assert(decode_utf8(encode_utf8(a@)) == a@);
    assert(decode_utf8(encode_utf8(b@)) == b@);
    true
}

/// The result of a lookup: the value of the deepest node reached, that node's
/// depth, how many keys led there, and the node itself.
#[derive(Debug)]
pub struct RTLookupResult<'a, T> {
    pub val: &'a T,
    pub depth: usize,
    pub keys_used: usize,
    pub keep_going: &'a RoutingTable<'a, T>,
}

/// One route level: a single segment, or several alternatives.
#[derive(Copy, Clone, Debug)]
pub enum OneOrMore<'a> {
    One(&'a str),
    More(&'a [&'a str]),
}

/// A group of levels: consecutive single segments, or one level of alternatives.
#[derive(Copy, Clone, Debug)]
pub enum SerialOrParallel<'a> {
    Serial(&'a [&'a str]),
    Parallel(&'a [&'a str]),
}

/// A level with the single segment `str`.
pub fn one(str: &str) -> (r: OneOrMore)
    ensures
        r == OneOrMore::One(str),
{
    OneOrMore::One(str)
}

/// A level whose alternatives are `str_arr`.
pub fn more<'b>(str_arr: &'b [&str]) -> (r: OneOrMore<'b>)
    ensures
        r == OneOrMore::More(str_arr),
{
    OneOrMore::More(str_arr)
}

/// A group of consecutive single-segment levels.
pub fn ser<'b>(str_arr: &'b [&str]) -> (r: SerialOrParallel<'b>)
    ensures
        r == SerialOrParallel::Serial(str_arr),
{
    SerialOrParallel::Serial(str_arr)
}

/// A group of one level whose alternatives are `str_arr`.
pub fn par<'b>(str_arr: &'b [&str]) -> (r: SerialOrParallel<'b>)
    ensures
        r == SerialOrParallel::Parallel(str_arr),
{
    SerialOrParallel::Parallel(str_arr)
}

/// The characters of each segment.
pub open spec fn segs(keys: Seq<&str>) -> Seq<Seq<char>> {
    keys.map_values(|k: &str| k@)
}

impl<'a> OneOrMore<'a> {
    /// The segments this level accepts, in order.
    pub open spec fn options(self) -> Seq<Seq<char>> {
        match self {
            OneOrMore::One(s) => seq![s@],
            OneOrMore::More(a) => segs(a@),
        }
    }

    fn count(&self) -> (r: usize)
        ensures
            r == self.options().len(),
    {
        match self {
            OneOrMore::One(_) => 1,
            OneOrMore::More(a) => a.len(),
        }
    }

    fn get(&self, j: usize) -> (r: &'a str)
        requires
            j < self.options().len(),
        ensures
            r@ == self.options()[j as int],
    {
        match self {
            OneOrMore::One(s) => s,
            OneOrMore::More(a) => a[j],
        }
    }
}

/// The alternatives of every level of a route.
pub open spec fn levels(route: Seq<OneOrMore>) -> Seq<Seq<Seq<char>>> {
    route.map_values(|o: OneOrMore| o.options())
}

/// `p` picks one alternative from each of the first `p.len()` levels from `start` on.
pub open spec fn prefix_follows(p: Seq<Seq<char>>, lv: Seq<Seq<Seq<char>>>, start: int) -> bool {
    &&& 0 <= start
    &&& start + p.len() <= lv.len()
    &&& forall|i: int| 0 <= i < p.len() ==> lv[start + i].contains(#[trigger] p[i])
}

/// `p` picks one alternative from every level from `start` on.
pub open spec fn follows(p: Seq<Seq<char>>, lv: Seq<Seq<Seq<char>>>, start: int) -> bool {
    &&& prefix_follows(p, lv, start)
    &&& start + p.len() == lv.len()
}

/// The levels that a list of groups stands for, in order.
pub open spec fn flatten<'a>(route: Seq<SerialOrParallel<'a>>) -> Seq<OneOrMore<'a>>
    decreases route.len(),
{
    if route.len() == 0 {
        Seq::empty()
    } else {
        flatten(route.drop_last()) + match route.last() {
            SerialOrParallel::Parallel(a) => seq![OneOrMore::More(a)],
            SerialOrParallel::Serial(a) => a@.map_values(|x: &'a str| OneOrMore::One(x)),
        }
    }
}

/// Some level has no alternative at all, so no path follows the levels.
pub open spec fn has_empty_level(lv: Seq<Seq<Seq<char>>>) -> bool {
    exists|i: int| 0 <= i < lv.len() && lv[i].len() == 0
}

/// No level lists the same segment twice.
pub open spec fn levels_distinct(lv: Seq<Seq<Seq<char>>>) -> bool {
    forall|i: int, a: int, b: int|
        0 <= i < lv.len() && 0 <= a < b < lv[i].len() ==> lv[i][a] != lv[i][b]
}

/// A trie of routes: each edge is a path segment, each node carries the value
/// served when a lookup stops there.
#[derive(Debug)]
pub struct RoutingTable<'a, T> {
    map: Vec<(&'a str, RoutingTable<'a, T>)>,
    data: &'a T,
    depth: usize,
}

impl<'a, T> RoutingTable<'a, T> {
    /// An edge labelled `k` leaves this node.
    pub closed spec fn has_key(self, k: Seq<char>) -> bool {
        exists|i: int| 0 <= i < self.map@.len() && self.map@[i].0@ == k
    }

    /// The node at the end of the edge labelled `k`.
    pub closed spec fn child(self, k: Seq<char>) -> RoutingTable<'a, T> {
        self.map@[choose|i: int| 0 <= i < self.map@.len() && self.map@[i].0@ == k].1
    }

    /// Edge labels are distinct, and each child stands one level deeper.
    pub closed spec fn wf(self) -> bool
        decreases self,
    {
        &&& forall|i: int, j: int|
            0 <= i < j < self.map@.len() ==> self.map@[i].0@ != self.map@[j].0@
        &&& forall|i: int|
            #![trigger self.map@[i]]
            0 <= i < self.map@.len() ==> {
                &&& self.map@[i].1.depth == self.depth + 1
                &&& self.map@[i].1.wf()
            }
    }


    /// The value served at this node.
    pub closed spec fn value(self) -> &'a T {
        self.data
    }

    /// How far below the root this node stands.
    pub closed spec fn level(self) -> nat {
        self.depth as nat
    }

    /// The node reached by following `p` edge by edge, if every edge exists.
    pub closed spec fn node_at(self, p: Seq<Seq<char>>) -> Option<RoutingTable<'a, T>>
        decreases p.len(),
    {
        if p.len() == 0 {
            Some(self)
        } else if self.has_key(p[0]) {
            self.child(p[0]).node_at(p.drop_first())
        } else {
            None
        }
    }

    /// Whether a node stands at `p`.
    pub open spec fn has_node(self, p: Seq<Seq<char>>) -> bool {
        self.node_at(p) is Some
    }

    /// How many leading keys a walk from this node follows.
    pub closed spec fn matched(self, keys: Seq<Seq<char>>) -> nat
        decreases keys.len(),
    {
        if keys.len() > 0 && self.has_key(keys[0]) {
            1 + self.child(keys[0]).matched(keys.drop_first())
        } else {
            0
        }
    }

    /// The empty path leads to the node itself.
    pub proof fn lemma_node_at_empty(self)
        ensures
            self.node_at(Seq::empty()) == Some(self),
    {
    }

    /// Nodes are closed under prefixes: every node's ancestors are nodes too.
    pub proof fn lemma_prefix_closed(self, p: Seq<Seq<char>>, i: int)
        requires
            self.has_node(p),
            0 <= i <= p.len(),
        ensures
            self.has_node(p.subrange(0, i)),
        decreases p.len(),
    {
        if i > 0 {
            let q = p.subrange(0, i);
            assert(q[0] == p[0]);
            assert(q.drop_first() =~= p.drop_first().subrange(0, i - 1));
            self.child(p[0]).lemma_prefix_closed(p.drop_first(), i - 1);
        } else {
            assert(p.subrange(0, 0) =~= Seq::<Seq<char>>::empty());
        }
    }

    proof fn lemma_child_at(self, i: int)
        requires
            self.wf(),
            0 <= i < self.map@.len(),
        ensures
            self.has_key(self.map@[i].0@),
            self.child(self.map@[i].0@) == self.map@[i].1,
            self.map@[i].1.wf(),
            self.map@[i].1.depth == self.depth + 1,
    {
        let k = self.map@[i].0@;
        assert(self.has_key(k));
        let j = choose|j: int| 0 <= j < self.map@.len() && self.map@[j].0@ == k;
        assert(j == i);
    }

    proof fn lemma_node_at_cons(self, k: Seq<char>, p: Seq<Seq<char>>)
        ensures
            self.node_at(seq![k] + p) == (if self.has_key(k) {
                self.child(k).node_at(p)
            } else {
                None
            }),
    {
        assert((seq![k] + p).drop_first() =~= p);
    }

    /// Walking from a node: the keys followed, and the node reached.
    pub closed spec fn reached(self, keys: Seq<Seq<char>>) -> RoutingTable<'a, T>
        decreases keys.len(),
    {
        if keys.len() > 0 && self.has_key(keys[0]) {
            self.child(keys[0]).reached(keys.drop_first())
        } else {
            self
        }
    }

    proof fn lemma_reached(self, keys: Seq<Seq<char>>)
        requires
            self.wf(),
        ensures
            self.matched(keys) <= keys.len(),
            self.node_at(keys.subrange(0, self.matched(keys) as int)) == Some(self.reached(keys)),
            self.reached(keys).wf(),
            self.reached(keys).depth == self.depth + self.matched(keys),
            self.matched(keys) < keys.len() ==> !self.reached(keys).has_key(
                keys[self.matched(keys) as int],
            ),
        decreases keys.len(),
    {
        if keys.len() > 0 && self.has_key(keys[0]) {
            let i = choose|i: int| 0 <= i < self.map@.len() && self.map@[i].0@ == keys[0];
            self.lemma_child_at(i);
            let c = self.child(keys[0]);
            let rest = keys.drop_first();
            c.lemma_reached(rest);
            let m = c.matched(rest) as int;
            assert(keys.subrange(0, m + 1) =~= seq![keys[0]] + rest.subrange(0, m));
            self.lemma_node_at_cons(keys[0], rest.subrange(0, m));
        } else {
            assert(keys.subrange(0, 0) =~= Seq::<Seq<char>>::empty());
        }
    }

    /// A table with only its root, which serves `root_data`.
    pub fn new(root_data: &'a T) -> (r: Self)
        ensures
            r.wf(),
            r.level() == 0,
            r.value() == root_data,
            forall|p: Seq<Seq<char>>| r.has_node(p) <==> p.len() == 0,
    {
        RoutingTable::new_core(root_data, 0)
    }

    fn new_core(root_data: &'a T, depth: usize) -> (r: Self)
        ensures
            r.wf(),
            r.depth == depth,
            r.data == root_data,
            r.map@.len() == 0,
            forall|p: Seq<Seq<char>>| r.has_node(p) <==> p.len() == 0,
    {
        let r = RoutingTable { map: Vec::new(), data: root_data, depth };
        assert forall|p: Seq<Seq<char>>| r.has_node(p) <==> p.len() == 0 by {
            if p.len() > 0 {
                assert(!r.has_key(p[0]));
            }
        }
        r
    }

    fn find_child(&self, key: &str) -> (r: Option<usize>)
        requires
            self.wf(),
        ensures
            r matches Some(i) ==> i < self.map@.len() && self.map@[i as int].0@ == key@,
            r is None ==> !self.has_key(key@),
    {
        let mut i: usize = 0;
        while i < self.map.len()
            invariant
                0 <= i <= self.map@.len(),
                forall|j: int| 0 <= j < i ==> self.map@[j].0@ != key@,
            decreases self.map@.len() - i,
        {
            if str_eq(self.map[i].0, key) {
                return Some(i);
            }
            i = i + 1;
        }
        None
    }

    /// Follows `keys` from this node as far as edges exist; the result
    /// describes the node where the walk stopped.
    pub fn lookup(self: &'a Self, keys: &'a [&str]) -> (r: Option<RTLookupResult<'a, T>>)
        requires
            self.wf(),
        ensures
            r matches Some(res) && {
                let m = self.matched(segs(keys@));
                &&& res.keys_used == m
                &&& m <= keys@.len()
                &&& self.node_at(segs(keys@).subrange(0, m as int)) == Some(*res.keep_going)
                &&& res.val == res.keep_going.value()
                &&& res.depth == self.level() + m
                &&& res.keep_going.wf()
                &&& (m < keys@.len() ==> !res.keep_going.has_node(
                    seq![segs(keys@)[m as int]],
                ))
            },
    {
        let r = self.lookup_core(keys, 0);
        proof {
            let ks = segs(keys@);
            assert(ks.subrange(0, keys@.len() as int) =~= ks);
            self.lemma_reached(ks);
            let m = self.matched(ks);
            if m < keys@.len() {
                let n = self.reached(ks);
                n.lemma_node_at_cons(ks[m as int], Seq::empty());
                assert(seq![ks[m as int]] + Seq::<Seq<char>>::empty() =~= seq![ks[m as int]]);
            }
        }
        r
    }

    fn lookup_core(self: &'a Self, keys: &'a [&str], start: usize) -> (r: Option<
        RTLookupResult<'a, T>,
    >)
        requires
            self.wf(),
        ensures
            r matches Some(res) && {
                let ks = if start <= keys@.len() {
                    segs(keys@).subrange(start as int, keys@.len() as int)
                } else {
                    Seq::empty()
                };
                &&& res.keys_used == start + self.matched(ks)
                &&& *res.keep_going == self.reached(ks)
                &&& res.val == res.keep_going.data
                &&& res.depth == res.keep_going.depth
            },
        decreases keys@.len() - start,
    {
        if start < keys.len() {
            let ghost ks = segs(keys@).subrange(start as int, keys@.len() as int);
            let key = keys[start];
            assert(ks[0] == key@);
            if let Some(i) = self.find_child(key) {
                proof {
                    self.lemma_child_at(i as int);
                    assert(ks.drop_first() =~= segs(keys@).subrange(start + 1, keys@.len() as int));
                }
                let r = self.map[i].1.lookup_core(keys, start + 1);
                return r;
            }
        } else {
            proof {
                if start == keys@.len() {
                    assert(segs(keys@).subrange(start as int, keys@.len() as int).len() == 0);
                }
            }
        }
        Some(RTLookupResult { val: self.data, depth: self.depth, keys_used: start, keep_going: self })
    }

    proof fn lemma_update(a: Self, b: Self, i: int)
        requires
            a.wf(),
            0 <= i < a.map@.len(),
            b.map@ == a.map@.update(i, (a.map@[i].0, b.map@[i].1)),
            b.map@[i].1.wf(),
            b.map@[i].1.depth == a.depth + 1,
            b.depth == a.depth,
        ensures
            b.wf(),
            b.has_key(a.map@[i].0@),
            b.child(a.map@[i].0@) == b.map@[i].1,
            a.child(a.map@[i].0@) == a.map@[i].1,
            forall|k: Seq<char>|
                k != a.map@[i].0@ ==> (a.has_key(k) <==> b.has_key(k)) && (a.has_key(k)
                    ==> a.child(k) == b.child(k)),
    {
        let next = a.map@[i].0@;
        assert(b.wf()) by {
            assert forall|x: int| #![trigger b.map@[x]] 0 <= x < b.map@.len() implies b.map@[x].1.depth
                == b.depth + 1 && b.map@[x].1.wf() by {
                if x != i {
                    a.lemma_child_at(x);
                }
            }
        }
        a.lemma_child_at(i);
        b.lemma_child_at(i);
        assert forall|k: Seq<char>| k != next implies (a.has_key(k) <==> b.has_key(k)) && (
        a.has_key(k) ==> a.child(k) == b.child(k)) by {
            if a.has_key(k) {
                let j = choose|j: int| 0 <= j < a.map@.len() && a.map@[j].0@ == k;
                a.lemma_child_at(j);
                assert(b.map@[j] == a.map@[j]);
                b.lemma_child_at(j);
            }
            if b.has_key(k) {
                let j = choose|j: int| 0 <= j < b.map@.len() && b.map@[j].0@ == k;
                assert(a.map@[j] == b.map@[j]);
            }
        }
    }

    proof fn lemma_push(a: Self, b: Self, e: (&'a str, RoutingTable<'a, T>))
        requires
            a.wf(),
            !a.has_key(e.0@),
            b.map@ == a.map@.push(e),
            e.1.wf(),
            e.1.depth == a.depth + 1,
            b.depth == a.depth,
        ensures
            b.wf(),
            b.has_key(e.0@),
            b.child(e.0@) == e.1,
            forall|k: Seq<char>|
                k != e.0@ ==> (a.has_key(k) <==> b.has_key(k)) && (a.has_key(k) ==> a.child(k)
                    == b.child(k)),
    {
        let n = a.map@.len() as int;
        assert(b.wf()) by {
            assert forall|x: int| #![trigger b.map@[x]] 0 <= x < b.map@.len() implies b.map@[x].1.depth
                == b.depth + 1 && b.map@[x].1.wf() by {
                if x != n {
                    a.lemma_child_at(x);
                }
            }
            assert forall|x: int, y: int| 0 <= x < y < b.map@.len() implies b.map@[x].0@
                != b.map@[y].0@ by {
                if y == n {
                    assert(a.map@[x].0@ == b.map@[x].0@);
                }
            }
        }
        b.lemma_child_at(n);
        assert forall|k: Seq<char>| k != e.0@ implies (a.has_key(k) <==> b.has_key(k)) && (
        a.has_key(k) ==> a.child(k) == b.child(k)) by {
            if a.has_key(k) {
                let j = choose|j: int| 0 <= j < a.map@.len() && a.map@[j].0@ == k;
                a.lemma_child_at(j);
                assert(b.map@[j] == a.map@[j]);
                b.lemma_child_at(j);
            }
            if b.has_key(k) {
                let j = choose|j: int| 0 <= j < b.map@.len() && b.map@[j].0@ == k;
                assert(j != n);
                assert(a.map@[j] == b.map@[j]);
            }
        }
    }

    /// Nodes away from the edge `k` are the same in both tables; below `k`,
    /// `b` has what its child there has.
    proof fn lemma_nodes_split(a: Self, b: Self, k: Seq<char>, ca: Option<Self>, cb: Self)
        requires
            forall|x: Seq<char>|
                x != k ==> (a.has_key(x) <==> b.has_key(x)) && (a.has_key(x) ==> a.child(x)
                    == b.child(x)),
            ca is Some <==> a.has_key(k),
            ca matches Some(c) ==> a.child(k) == c,
            b.has_key(k),
            b.child(k) == cb,
        ensures
            forall|q: Seq<Seq<char>>|
                #![trigger b.node_at(q)]
                q.len() > 0 && q[0] != k ==> a.node_at(q) == b.node_at(q),
            forall|r: Seq<Seq<char>>|
                #![trigger b.node_at(seq![k] + r)]
                b.node_at(seq![k] + r) == cb.node_at(r) && a.node_at(seq![k] + r) == (match ca {
                    Some(c) => c.node_at(r),
                    None => None,
                }),
    {
        assert forall|r: Seq<Seq<char>>|
            #![trigger b.node_at(seq![k] + r)]
            b.node_at(seq![k] + r) == cb.node_at(r) && a.node_at(seq![k] + r) == (match ca {
                Some(c) => c.node_at(r),
                None => None,
            }) by {
            a.lemma_node_at_cons(k, r);
            b.lemma_node_at_cons(k, r);
        }
    }

    /// Every node of `self` stands in `later` too, with the same value.
    pub open spec fn preserved_in(self, later: Self) -> bool {
        forall|q: Seq<Seq<char>>|
            #![trigger later.node_at(q)]
            self.has_node(q) ==> later.has_node(q) && later.node_at(q)->0.value()
                == self.node_at(q)->0.value()
    }

    /// A node stands at `p` and serves `entity`.
    pub open spec fn serves(self, p: Seq<Seq<char>>, entity: &'a T) -> bool {
        self.node_at(p) matches Some(n) && n.value() == entity
    }

    proof fn lemma_one_post(
        a: Self,
        b: Self,
        k: Seq<char>,
        ca: Option<Self>,
        cb: Self,
        lv: Seq<Seq<Seq<char>>>,
        start: int,
        entity: &'a T,
    )
        requires
            forall|x: Seq<char>|
                x != k ==> (a.has_key(x) <==> b.has_key(x)) && (a.has_key(x) ==> a.child(x)
                    == b.child(x)),
            ca is Some <==> a.has_key(k),
            ca matches Some(c) ==> a.child(k) == c && c.preserved_in(cb),
            b.has_key(k),
            b.child(k) == cb,
            a.data == b.data,
            forall|p: Seq<Seq<char>>| #[trigger] follows(p, lv, start) ==> cb.serves(p, entity),
            forall|r: Seq<Seq<char>>|
                #![trigger cb.node_at(r)]
                cb.has_node(r) && !(ca matches Some(c) && c.has_node(r)) ==> prefix_follows(
                    r,
                    lv,
                    start,
                ),
        ensures
            forall|p: Seq<Seq<char>>| #[trigger]
                follows(p, lv, start) ==> b.serves(seq![k] + p, entity),
            a.preserved_in(b),
            forall|q: Seq<Seq<char>>|
                #![trigger b.node_at(q)]
                b.has_node(q) && !a.has_node(q) ==> q.len() > 0 && q[0] == k && prefix_follows(
                    q.drop_first(),
                    lv,
                    start,
                ),
    {
        Self::lemma_nodes_split(a, b, k, ca, cb);
        assert forall|p: Seq<Seq<char>>| #[trigger]
            follows(p, lv, start) implies b.serves(seq![k] + p, entity) by {
            assert(b.node_at(seq![k] + p) == cb.node_at(p));
        }
        assert forall|q: Seq<Seq<char>>| #![trigger b.node_at(q)] a.has_node(q) implies b.has_node(q)
            && b.node_at(q)->0.value() == a.node_at(q)->0.value() by {
            if q.len() > 0 && q[0] == k {
                let r = q.drop_first();
                assert(q =~= seq![k] + r);
                assert(b.node_at(seq![k] + r) == cb.node_at(r));
                assert(cb.node_at(r) == b.node_at(q));
            }
        }
        assert forall|q: Seq<Seq<char>>| #![trigger b.node_at(q)] b.has_node(q) && !a.has_node(q) implies q.len() > 0 && q[0]
            == k && prefix_follows(q.drop_first(), lv, start) by {
            if q.len() > 0 && q[0] == k {
                let r = q.drop_first();
                assert(q =~= seq![k] + r);
                assert(b.node_at(seq![k] + r) == cb.node_at(r));
                assert(cb.node_at(r) == b.node_at(q));
            }
        }
    }

    proof fn lemma_reached_cons(self, k: Seq<char>, r: Seq<Seq<char>>)
        ensures
            self.reached(seq![k] + r) == (if self.has_key(k) {
                self.child(k).reached(r)
            } else {
                self
            }),
    {
        assert((seq![k] + r).drop_first() =~= r);
    }

    proof fn lemma_one_fallback(
        a: Self,
        b: Self,
        k: Seq<char>,
        ca: Option<Self>,
        cb: Self,
        lv: Seq<Seq<Seq<char>>>,
        start: int,
    )
        requires
            forall|x: Seq<char>|
                x != k ==> (a.has_key(x) <==> b.has_key(x)) && (a.has_key(x) ==> a.child(x)
                    == b.child(x)),
            ca is Some <==> a.has_key(k),
            ca matches Some(c) ==> a.child(k) == c,
            b.has_key(k),
            b.child(k) == cb,
            ca matches Some(c) ==> forall|r: Seq<Seq<char>>|
                #![trigger cb.node_at(r)]
                cb.has_node(r) && !c.has_node(r) && !follows(r, lv, start) ==> cb.node_at(
                    r,
                )->0.value() == c.reached(r).value(),
            ca is None ==> forall|r: Seq<Seq<char>>|
                #![trigger cb.node_at(r)]
                cb.has_node(r) && !follows(r, lv, start) ==> cb.node_at(r)->0.value() == a.value(),
        ensures
            forall|q: Seq<Seq<char>>|
                #![trigger b.node_at(q)]
                b.has_node(q) && !a.has_node(q) && !follows(q.drop_first(), lv, start)
                    ==> b.node_at(q)->0.value() == a.reached(q).value(),
    {
        Self::lemma_nodes_split(a, b, k, ca, cb);
        assert forall|q: Seq<Seq<char>>|
            #![trigger b.node_at(q)]
            b.has_node(q) && !a.has_node(q) && !follows(q.drop_first(), lv, start) implies b.node_at(
            q,
        )->0.value() == a.reached(q).value() by {
            if q.len() > 0 && q[0] == k {
                let r = q.drop_first();
                assert(q =~= seq![k] + r);
                assert(b.node_at(seq![k] + r) == cb.node_at(r));
                a.lemma_reached_cons(k, r);
            }
        }
    }

    fn register_one_core(
        &mut self,
        entity: &'a T,
        next: &'a str,
        route: &[OneOrMore<'a>],
        start: usize,
    )
        requires
            old(self).wf(),
            start <= route@.len(),
            levels_distinct(levels(route@)),
            forall|p: Seq<Seq<char>>| #[trigger]
                follows(p, levels(route@), start as int) ==> !old(self).has_node(
                    seq![next@] + p,
                ),
            old(self).depth + (route@.len() - start) + 1 <= usize::MAX,
        ensures
            final(self).wf(),
            final(self).depth == old(self).depth,
            final(self).data == old(self).data,
            forall|p: Seq<Seq<char>>| #[trigger]
                follows(p, levels(route@), start as int) ==> final(self).serves(
                    seq![next@] + p,
                    entity,
                ),
            old(self).preserved_in(*final(self)),
            forall|q: Seq<Seq<char>>|
                #![trigger final(self).node_at(q)]
                final(self).has_node(q) && !old(self).has_node(q) ==> q.len() > 0 && q[0]
                    == next@ && prefix_follows(q.drop_first(), levels(route@), start as int),
            forall|q: Seq<Seq<char>>|
                #![trigger final(self).node_at(q)]
                final(self).has_node(q) && !old(self).has_node(q) && !follows(
                    q.drop_first(),
                    levels(route@),
                    start as int,
                ) ==> final(self).node_at(q)->0.value() == old(self).reached(q).value(),
            forall|x: Seq<char>|
                x != next@ ==> (final(self).has_key(x) <==> old(self).has_key(x))
                    && (old(self).has_key(x) ==> final(self).child(x) == old(self).child(x)),
        decreases route@.len() - start, 2int,
    {
        let ghost lv = levels(route@);
        let ghost a = *self;
        if start == route.len() {
            proof {
                assert(follows(Seq::empty(), lv, start as int));
                assert(seq![next@] + Seq::<Seq<char>>::empty() =~= seq![next@]);
                a.lemma_node_at_cons(next@, Seq::empty());
            }
            let leaf = RoutingTable::new_core(entity, self.depth + 1);
            let ghost e = (next, leaf);
            self.map.push((next, leaf));
            proof {
                Self::lemma_push(a, *self, e);
                assert forall|p: Seq<Seq<char>>| #[trigger]
                    follows(p, lv, start as int) implies leaf.serves(p, entity) by {
                    assert(p =~= Seq::<Seq<char>>::empty());
                }
                Self::lemma_one_post(a, *self, next@, None, leaf, lv, start as int, entity);
                assert forall|r: Seq<Seq<char>>|
                    #![trigger leaf.node_at(r)]
                    leaf.has_node(r) implies follows(r, lv, start as int) by {
                    assert(r =~= Seq::<Seq<char>>::empty());
                }
                Self::lemma_one_fallback(a, *self, next@, None, leaf, lv, start as int);
            }
        } else {
            match self.find_child(next) {
                Some(i) => {
                    proof {
                        a.lemma_child_at(i as int);
                        assert forall|p: Seq<Seq<char>>| #[trigger]
                            follows(p, lv, start as int) implies !a.map@[i as int].1.has_node(p) by {
                            a.lemma_node_at_cons(next@, p);
                        }
                    }
                    let (k, mut c) = self.map.remove(i);
                    let ghost c0 = c;
                    c.register_more_core(entity, route, start);
                    self.map.insert(i, (k, c));
                    proof {
                        assert(self.map@ =~= a.map@.update(i as int, (a.map@[i as int].0, c)));
                        Self::lemma_update(a, *self, i as int);
                        Self::lemma_one_post(a, *self, next@, Some(c0), c, lv, start as int, entity);
                        Self::lemma_one_fallback(a, *self, next@, Some(c0), c, lv, start as int);
                    }
                },
                None => {
                    let mut c = RoutingTable::new_core(self.data, self.depth + 1);
                    let ghost c0 = c;
                    c.register_more_core(entity, route, start);
                    let ghost e = (next, c);
                    self.map.push((next, c));
                    proof {
                        Self::lemma_push(a, *self, e);
                        Self::lemma_one_post(a, *self, next@, None, c, lv, start as int, entity);
                        assert forall|r: Seq<Seq<char>>|
                            #![trigger c.node_at(r)]
                            c.has_node(r) && !follows(r, lv, start as int) implies c.node_at(
                            r,
                        )->0.value() == a.value() by {
                            if r.len() > 0 {
                                assert(!c0.has_key(r[0]));
                                assert(c0.reached(r) == c0);
                            } else {
                                assert(c.node_at(r) == Some(c));
                            }
                        }
                        Self::lemma_one_fallback(a, *self, next@, None, c, lv, start as int);
                    }
                },
            }
        }
    }

    fn register_more_core(&mut self, entity: &'a T, route: &[OneOrMore<'a>], start: usize)
        requires
            old(self).wf(),
            start < route@.len(),
            levels_distinct(levels(route@)),
            forall|p: Seq<Seq<char>>| #[trigger]
                follows(p, levels(route@), start as int) ==> !old(self).has_node(p),
            old(self).depth + (route@.len() - start) <= usize::MAX,
        ensures
            final(self).wf(),
            final(self).depth == old(self).depth,
            final(self).data == old(self).data,
            forall|p: Seq<Seq<char>>| #[trigger]
                follows(p, levels(route@), start as int) ==> final(self).serves(p, entity),
            old(self).preserved_in(*final(self)),
            forall|q: Seq<Seq<char>>|
                #![trigger final(self).node_at(q)]
                final(self).has_node(q) && !old(self).has_node(q) ==> prefix_follows(
                    q,
                    levels(route@),
                    start as int,
                ),
            forall|q: Seq<Seq<char>>|
                #![trigger final(self).node_at(q)]
                final(self).has_node(q) && !old(self).has_node(q) && !follows(
                    q,
                    levels(route@),
                    start as int,
                ) ==> final(self).node_at(q)->0.value() == old(self).reached(q).value(),
            forall|x: Seq<char>|
                !levels(route@)[start as int].contains(x) ==> (final(self).has_key(x)
                    <==> old(self).has_key(x))
                    && (old(self).has_key(x) ==> final(self).child(x) == old(self).child(x)),
        decreases route@.len() - start, 1int,
    {
        let ghost lv = levels(route@);
        let ghost a = *self;
        let next = route[start];
        let n = next.count();
        assert(lv[start as int] == next.options());
        let mut j: usize = 0;
        while j < n
            invariant
                self.wf(),
                self.depth == a.depth,
                self.data == a.data,
                a.wf(),
                lv == levels(route@),
                start < route@.len() <= usize::MAX,
                levels_distinct(lv),
                a.depth + (route@.len() - start) <= usize::MAX,
                forall|p: Seq<Seq<char>>| #[trigger] follows(p, lv, start as int) ==> !a.has_node(p),
                lv[start as int] == next.options(),
                n == next.options().len(),
                0 <= j <= n,
                forall|jj: int, p: Seq<Seq<char>>|
                    #![trigger follows(p, lv, start + 1), lv[start as int][jj]]
                    0 <= jj < j && follows(p, lv, start + 1) ==> self.serves(
                        seq![lv[start as int][jj]] + p,
                        entity,
                    ),
                a.preserved_in(*self),
                forall|q: Seq<Seq<char>>|
                    #![trigger self.node_at(q)]
                    self.has_node(q) && !a.has_node(q) ==> q.len() > 0 && lv[start as int].subrange(
                        0,
                        j as int,
                    ).contains(q[0]) && prefix_follows(q.drop_first(), lv, start + 1),
                forall|q: Seq<Seq<char>>|
                    #![trigger self.node_at(q)]
                    self.has_node(q) && !a.has_node(q) && !follows(q, lv, start as int)
                        ==> self.node_at(q)->0.value() == a.reached(q).value(),
                forall|x: Seq<char>|
                    !lv[start as int].subrange(0, j as int).contains(x) ==> (self.has_key(x)
                        <==> a.has_key(x)) && (a.has_key(x) ==> self.child(x) == a.child(x)),
            decreases n - j,
        {
            let key = next.get(j);
            let ghost s0 = *self;
            proof {
                assert forall|p: Seq<Seq<char>>| #[trigger]
                    follows(p, lv, start + 1) implies !s0.has_node(seq![key@] + p) by {
                    let q = seq![key@] + p;
                    assert(q[0] == key@);
                    assert(q.drop_first() =~= p);
                    assert(follows(q, lv, start as int)) by {
                        assert forall|i: int| 0 <= i < q.len() implies lv[start + i].contains(
                            #[trigger] q[i],
                        ) by {
                            if i == 0 {
                                assert(lv[start as int][j as int] == q[0]);
                            } else {
                                assert(q[i] == p[i - 1]);
                            }
                        }
                    }
                    if s0.has_node(q) {
                        let sub = lv[start as int].subrange(0, j as int);
                        assert(sub.contains(q[0]));
                        let jj = choose|jj: int| 0 <= jj < sub.len() && sub[jj] == q[0];
                        assert(lv[start as int][jj] == lv[start as int][j as int]);
                    }
                }
            }
            self.register_one_core(entity, key, route, start + 1);
            proof {
                assert forall|jj: int, p: Seq<Seq<char>>|
                    #![trigger follows(p, lv, start + 1), lv[start as int][jj]]
                    0 <= jj < j + 1 && follows(p, lv, start + 1) implies self.serves(
                    seq![lv[start as int][jj]] + p,
                    entity,
                ) by {
                    let q = seq![lv[start as int][jj]] + p;
                    if jj < j {
                        assert(s0.has_node(q));
                        assert(self.node_at(q) == self.node_at(q));
                    }
                }
                assert forall|q: Seq<Seq<char>>|
                    #![trigger self.node_at(q)]
                    a.has_node(q) implies self.has_node(q) && self.node_at(q)->0.value()
                        == a.node_at(q)->0.value() by {
                    assert(s0.node_at(q) == s0.node_at(q));
                }
                assert forall|q: Seq<Seq<char>>|
                    #![trigger self.node_at(q)]
                    self.has_node(q) && !a.has_node(q) implies q.len() > 0 && lv[start as int].subrange(
                        0,
                        j + 1,
                    ).contains(q[0]) && prefix_follows(q.drop_first(), lv, start + 1) by {
                    let sub = lv[start as int].subrange(0, j + 1);
                    if s0.has_node(q) {
                        let old_sub = lv[start as int].subrange(0, j as int);
                        assert(old_sub.contains(q[0]));
                        let x = choose|x: int| 0 <= x < old_sub.len() && old_sub[x] == q[0];
                        assert(sub[x] == q[0]);
                    } else {
                        assert(sub[j as int] == q[0]);
                    }
                }
                let kj = lv[start as int][j as int];
                assert(key@ == kj);
                assert(!lv[start as int].subrange(0, j as int).contains(kj)) by {
                    let sub = lv[start as int].subrange(0, j as int);
                    if sub.contains(kj) {
                        let x = choose|x: int| 0 <= x < sub.len() && sub[x] == kj;
                        assert(lv[start as int][x] == lv[start as int][j as int]);
                    }
                }
                assert forall|x: Seq<char>|
                    !lv[start as int].subrange(0, j + 1).contains(x) implies (self.has_key(x)
                    <==> a.has_key(x)) && (a.has_key(x) ==> self.child(x) == a.child(x)) by {
                    let sub = lv[start as int].subrange(0, j + 1);
                    assert(sub[j as int] == kj);
                    if lv[start as int].subrange(0, j as int).contains(x) {
                        let y = choose|y: int|
                            0 <= y < j && lv[start as int].subrange(0, j as int)[y] == x;
                        assert(sub[y] == x);
                    }
                }
                assert forall|q: Seq<Seq<char>>|
                    #![trigger self.node_at(q)]
                    self.has_node(q) && !a.has_node(q) && !follows(q, lv, start as int) implies self.node_at(
                    q,
                )->0.value() == a.reached(q).value() by {
                    if s0.has_node(q) {
                        assert(s0.node_at(q) == s0.node_at(q));
                    } else {
                        let r = q.drop_first();
                        assert(q =~= seq![kj] + r);
                        if follows(r, lv, start + 1) {
                            assert(follows(q, lv, start as int)) by {
                                assert forall|i: int| 0 <= i < q.len() implies lv[start + i].contains(
                                    #[trigger] q[i],
                                ) by {
                                    if i == 0 {
                                        assert(lv[start as int][j as int] == q[0]);
                                    } else {
                                        assert(q[i] == r[i - 1]);
                                    }
                                }
                            }
                        }
                        s0.lemma_reached_cons(kj, r);
                        a.lemma_reached_cons(kj, r);
                    }
                }
            }
            j = j + 1;
        }
        proof {
            assert forall|p: Seq<Seq<char>>| #[trigger]
                follows(p, lv, start as int) implies self.serves(p, entity) by {
                let r = p.drop_first();
                assert(p =~= seq![p[0]] + r);
                assert(lv[start as int].contains(p[0]));
                let jj = choose|jj: int| 0 <= jj < lv[start as int].len() && lv[start as int][jj] == p[0];
                assert(follows(r, lv, start + 1)) by {
                    assert forall|i: int| 0 <= i < r.len() implies lv[start + 1 + i].contains(
                        #[trigger] r[i],
                    ) by {
                        assert(r[i] == p[i + 1]);
                    }
                }
            }
            assert(lv[start as int].subrange(0, n as int) =~= lv[start as int]);
            assert forall|q: Seq<Seq<char>>|
                #![trigger self.node_at(q)]
                self.has_node(q) && !a.has_node(q) implies prefix_follows(q, lv, start as int) by {
                let r = q.drop_first();
                let sub = lv[start as int].subrange(0, n as int);
                assert(sub =~= lv[start as int]);
                assert forall|i: int| 0 <= i < q.len() implies lv[start + i].contains(
                    #[trigger] q[i],
                ) by {
                    if i > 0 {
                        assert(q[i] == r[i - 1]);
                    }
                }
            }
        }
    }

    /// Registers `entity` at the path `route`; the missing nodes above it are
    /// created and serve what their parent serves.
    pub fn register(&mut self, entity: &'a T, route: &[&'a str])
        requires
            old(self).wf(),
            route@.len() > 0,
            !old(self).has_node(segs(route@)),
            old(self).level() + route@.len() <= usize::MAX,
        ensures
            final(self).wf(),
            final(self).level() == old(self).level(),
            final(self).value() == old(self).value(),
            final(self).serves(segs(route@), entity),
            old(self).preserved_in(*final(self)),
            forall|q: Seq<Seq<char>>|
                #![trigger final(self).node_at(q)]
                final(self).has_node(q) && !old(self).has_node(q) ==> q.len() <= route@.len()
                    && q == segs(route@).subrange(0, q.len() as int),
            forall|q: Seq<Seq<char>>|
                #![trigger final(self).node_at(q)]
                final(self).has_node(q) && !old(self).has_node(q) && q != segs(route@)
                    ==> final(self).node_at(q)->0.value() == old(self).reached(q).value(),
    {
        let mut v: Vec<OneOrMore<'a>> = Vec::new();
        let mut i: usize = 0;
        while i < route.len()
            invariant
                0 <= i <= route@.len(),
                v@.len() == i,
                forall|x: int| 0 <= x < i ==> #[trigger] v@[x] == OneOrMore::One(route@[x]),
            decreases route@.len() - i,
        {
            v.push(OneOrMore::One(route[i]));
            i = i + 1;
        }
        let ghost lv = levels(v@);
        let ghost path = segs(route@);
        proof {
            assert forall|x: int| 0 <= x < lv.len() implies #[trigger] lv[x] == seq![path[x]] by {
                assert(v@[x] == OneOrMore::One(route@[x]));
            }
            assert forall|p: Seq<Seq<char>>| #[trigger] follows(p, lv, 0) implies p == path by {
                assert forall|x: int| 0 <= x < p.len() implies p[x] == path[x] by {
                    assert(lv[x].contains(p[x]));
                    assert(lv[x] == seq![path[x]]);
                }
                assert(p =~= path);
            }
            assert(follows(path, lv, 0)) by {
                assert forall|x: int| 0 <= x < path.len() implies lv[0 + x].contains(
                    #[trigger] path[x],
                ) by {
                    assert(lv[x] == seq![path[x]]);
                    assert(lv[x][0] == path[x]);
                }
            }
        }
        self.register_more_core(entity, v.as_slice(), 0);
        proof {
            assert forall|q: Seq<Seq<char>>|
                #![trigger self.node_at(q)]
                self.has_node(q) && !old(self).has_node(q) implies q.len() <= route@.len() && q
                    == path.subrange(0, q.len() as int) by {
                assert(prefix_follows(q, lv, 0));
                assert forall|x: int| 0 <= x < q.len() implies q[x] == path[x] by {
                    assert(lv[0 + x].contains(q[x]));
                    assert(lv[x] == seq![path[x]]);
                }
                assert(q =~= path.subrange(0, q.len() as int));
            }
        }
    }

    /// Registers `entity` at every path that picks one segment from each level
    /// of `route`. A level without alternatives leaves no path: nothing changes.
    pub fn reg_more(&mut self, entity: &'a T, route: &[OneOrMore<'a>])
        requires
            old(self).wf(),
            route@.len() > 0,
            levels_distinct(levels(route@)) || has_empty_level(levels(route@)),
            forall|p: Seq<Seq<char>>| #[trigger]
                follows(p, levels(route@), 0) ==> !old(self).has_node(p),
            old(self).level() + route@.len() <= usize::MAX,
        ensures
            has_empty_level(levels(route@)) ==> *final(self) == *old(self),
            final(self).wf(),
            final(self).level() == old(self).level(),
            final(self).value() == old(self).value(),
            forall|p: Seq<Seq<char>>| #[trigger]
                follows(p, levels(route@), 0) ==> final(self).serves(p, entity),
            old(self).preserved_in(*final(self)),
            forall|q: Seq<Seq<char>>|
                #![trigger final(self).node_at(q)]
                final(self).has_node(q) && !old(self).has_node(q) ==> prefix_follows(
                    q,
                    levels(route@),
                    0,
                ),
            forall|q: Seq<Seq<char>>|
                #![trigger final(self).node_at(q)]
                final(self).has_node(q) && !old(self).has_node(q) && !follows(q, levels(route@), 0)
                    ==> final(self).node_at(q)->0.value() == old(self).reached(q).value(),
    {
        let mut i: usize = 0;
        while i < route.len()
            invariant
                0 <= i <= route@.len(),
                *self == *old(self),
                self.wf(),
                forall|j: int| 0 <= j < i ==> levels(route@)[j].len() > 0,
            decreases route@.len() - i,
        {
            if route[i].count() == 0 {
                proof {
                    let lv = levels(route@);
                    assert(lv[i as int].len() == 0);
                    assert forall|p: Seq<Seq<char>>| #[trigger] follows(p, lv, 0) implies false by {
                        assert(lv[0 + i].contains(p[i as int]));
                    }
                }
                return;
            }
            i = i + 1;
        }
        self.register_more_core(entity, route, 0);
    }

    /// Registers `entity` at every path that the groups of `route` describe: a
    /// serial group adds one level per segment, a parallel group one level of
    /// alternatives.
    pub fn reg_parallel(&mut self, entity: &'a T, route: &[SerialOrParallel<'a>])
        requires
            old(self).wf(),
            flatten(route@).len() > 0,
            levels_distinct(levels(flatten(route@))) || has_empty_level(levels(flatten(route@))),
            forall|p: Seq<Seq<char>>| #[trigger]
                follows(p, levels(flatten(route@)), 0) ==> !old(self).has_node(p),
            old(self).level() + flatten(route@).len() <= usize::MAX,
        ensures
            has_empty_level(levels(flatten(route@))) ==> *final(self) == *old(self),
            final(self).wf(),
            final(self).level() == old(self).level(),
            final(self).value() == old(self).value(),
            forall|p: Seq<Seq<char>>| #[trigger]
                follows(p, levels(flatten(route@)), 0) ==> final(self).serves(p, entity),
            old(self).preserved_in(*final(self)),
            forall|q: Seq<Seq<char>>|
                #![trigger final(self).node_at(q)]
                final(self).has_node(q) && !old(self).has_node(q) ==> prefix_follows(
                    q,
                    levels(flatten(route@)),
                    0,
                ),
            forall|q: Seq<Seq<char>>|
                #![trigger final(self).node_at(q)]
                final(self).has_node(q) && !old(self).has_node(q) && !follows(q, levels(flatten(route@)), 0)
                    ==> final(self).node_at(q)->0.value() == old(self).reached(q).value(),
    {
        let mut v: Vec<OneOrMore<'a>> = Vec::new();
        let mut i: usize = 0;
        while i < route.len()
            invariant
                0 <= i <= route@.len(),
                v@ == flatten(route@.subrange(0, i as int)),
            decreases route@.len() - i,
        {
            let ghost before = v@;
            assert(route@.subrange(0, i + 1).drop_last() =~= route@.subrange(0, i as int));
            match route[i] {
                SerialOrParallel::Parallel(a) => {
                    v.push(OneOrMore::More(a));
                },
                SerialOrParallel::Serial(a) => {
                    let mut j: usize = 0;
                    while j < a.len()
                        invariant
                            0 <= j <= a@.len(),
                            v@ == before + a@.subrange(0, j as int).map_values(
                                |x: &'a str| OneOrMore::One(x),
                            ),
                        decreases a@.len() - j,
                    {
                        v.push(OneOrMore::One(a[j]));
                        j = j + 1;
                        assert(v@ =~= before + a@.subrange(0, j as int).map_values(
                            |x: &'a str| OneOrMore::One(x),
                        ));
                    }
                    assert(a@.subrange(0, a@.len() as int) =~= a@);
                },
            }
            i = i + 1;
            assert(v@ =~= flatten(route@.subrange(0, i as int)));
        }
        assert(route@.subrange(0, route@.len() as int) =~= route@);
        self.reg_more(entity, v.as_slice());
    }
}

/// A marker with one associated function that does nothing.
pub trait Boring {
    fn boooooring();
}

impl<'a, T> Boring for RoutingTable<'a, T> {
    fn boooooring() {
    }
}

} // verus!
