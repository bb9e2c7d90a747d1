use vstd::prelude::*;

verus! {

/// Number of children of a trie node: one per byte value.
pub const ALPHABET: usize = 256;

/// A byte trie. Each node has one child slot per byte value and a set of
/// values (kept as a vector and read as a set: `add` adds a value only where
/// it is not there yet).
pub struct TRIE {
    pub ch: Option<u8>,
    pub to: Vec<Option<Box<TRIE>>>,
    pub values: Vec<(Vec<u8>, i64)>,
}

/// The view of one stored value: its bytes as a sequence, and its id.
pub open spec fn entry_view(e: (Vec<u8>, i64)) -> (Seq<u8>, i64) {
    (e.0@, e.1)
}

/// The values of a node, as a sequence of views.
pub open spec fn values_view(vals: Seq<(Vec<u8>, i64)>) -> Seq<(Seq<u8>, i64)> {
    vals.map_values(|e: (Vec<u8>, i64)| entry_view(e))
}

/// No value occurs twice in the sequence.
pub open spec fn no_duplicates(vals: Seq<(Seq<u8>, i64)>) -> bool {
    forall|i: int, j: int| 0 <= i < j < vals.len() ==> vals[i] != vals[j]
}

/// `p` is a prefix of `q`.
pub open spec fn is_prefix(p: Seq<u8>, q: Seq<u8>) -> bool {
    p.len() <= q.len() && q.subrange(0, p.len() as int) == p
}

/// Whether two byte strings are equal.
pub fn bytes_equal(a: &[u8], b: &[u8]) -> (res: bool)
    ensures
        res == (a@ == b@),
{
    if a.len() != b.len() {
        return false;
    }
    let mut i: usize = 0;
    while i < a.len()
        invariant
            a@.len() == b@.len(),
            i <= a@.len(),
            forall|j: int| 0 <= j < i ==> a@[j] == b@[j],
        decreases a@.len() - i,
    {
        if a[i] != b[i] {
            return false;
        }
        i = i + 1;
    }
    assert(a@ =~= b@);
    true
}

/// Adds `value` to `values` unless an equal value is already there.
pub fn insert_value(values: &mut Vec<(Vec<u8>, i64)>, value: (Vec<u8>, i64))
    ensures
        values_view(final(values)@) == if values_view(old(values)@).contains(entry_view(value)) {
            values_view(old(values)@)
        } else {
            values_view(old(values)@).push(entry_view(value))
        },
        no_duplicates(values_view(old(values)@)) ==> no_duplicates(values_view(final(values)@)),
        values_view(final(values)@).to_set() == values_view(old(values)@).to_set().insert(
            entry_view(value),
        ),
{
    let ghost old_view = values_view(values@);
    let mut i: usize = 0;
    while i < values.len()
        invariant
            values_view(values@) == old_view,
            i <= values@.len(),
            forall|j: int| 0 <= j < i ==> old_view[j] != entry_view(value),
        decreases values@.len() - i,
    {
        if values[i].1 == value.1 && bytes_equal(values[i].0.as_slice(), value.0.as_slice()) {
            assert(old_view.to_set().contains(entry_view(value))) by {
                assert(old_view[i as int] == entry_view(value));
            }
            assert(old_view.to_set().insert(entry_view(value)) =~= old_view.to_set());
            return;
        }
        i = i + 1;
    }
    values.push(value);
    assert(values_view(values@) =~= old_view.push(entry_view(value)));
    proof {
        old_view.lemma_push_to_set_commute(entry_view(value));
    }
}

impl TRIE {
    /// The node reached from this one by following the bytes of `path`.
    pub open spec fn node_at(self, path: Seq<u8>) -> Option<TRIE>
        decreases path.len(),
    {
        if path.len() == 0 {
            Some(self)
        } else if (path[0] as int) < self.to@.len() {
            match self.to@[path[0] as int] {
                Some(child) => (*child).node_at(path.drop_first()),
                None => None,
            }
        } else {
            None
        }
    }

    /// A node exists at `path`.
    pub open spec fn present(self, path: Seq<u8>) -> bool {
        self.node_at(path) is Some
    }

    /// The set of values stored at `path` (empty where no node exists).
    pub open spec fn values_at(self, path: Seq<u8>) -> Set<(Seq<u8>, i64)> {
        match self.node_at(path) {
            Some(n) => values_view(n.values@).to_set(),
            None => Set::empty(),
        }
    }

    /// The byte recorded by the node at `path` (`None` where no node exists).
    pub open spec fn ch_at(self, path: Seq<u8>) -> Option<u8> {
        match self.node_at(path) {
            Some(n) => n.ch,
            None => None,
        }
    }

    /// Shape of a single node: a slot for every byte.
    pub open spec fn node_wf(self) -> bool {
        self.to@.len() == ALPHABET
    }

    /// Every node of the trie has a slot for every byte.
    pub open spec fn wf(self) -> bool {
        forall|path: Seq<u8>| #[trigger] self.wf_at(path)
    }

    /// The node at `path`, if any, has a slot for every byte.
    pub open spec fn wf_at(self, path: Seq<u8>) -> bool {
        match self.node_at(path) {
            Some(n) => n.node_wf(),
            None => true,
        }
    }

    /// An empty node that records the byte `ch` leading to it.
    pub fn new(ch: Option<u8>) -> (res: Self)
        ensures
            res.ch == ch,
            res.wf(),
            res.values@.len() == 0,
            forall|path: Seq<u8>| #[trigger] res.present(path) <==> path.len() == 0,
    {
        let mut to: Vec<Option<Box<TRIE>>> = Vec::with_capacity(ALPHABET);
        let mut i: usize = 0;
        while i < ALPHABET
            invariant
                i <= ALPHABET,
                to@.len() == i,
                forall|j: int| 0 <= j < i ==> to@[j] is None,
            decreases ALPHABET - i,
        {
            to.push(None);
            i = i + 1;
        }
        let res = TRIE { ch, to, values: Vec::new() };
        assert forall|path: Seq<u8>| #[trigger] res.wf_at(path) by {
            if path.len() > 0 {
                assert(res.to@[path[0] as int] is None);
            }
        }
        assert forall|path: Seq<u8>| #[trigger] res.present(path) <==> path.len() == 0 by {
            if path.len() > 0 {
                assert(res.to@[path[0] as int] is None);
            }
        }
        res
    }

    /// A non-empty stretch `key[start..end]` leads to a node that holds values.
    pub open spec fn is_match(self, key: Seq<u8>, start: int, end: int) -> bool {
        &&& 0 <= start < end <= key.len()
        &&& self.node_at(key.subrange(start, end)) matches Some(n) && n.values@.len() > 0
    }

    /// Following `p` and then the byte `c` is following `p.push(c)`.
    pub proof fn lemma_node_at_push(self, p: Seq<u8>, c: u8)
        ensures
            self.node_at(p.push(c)) == match self.node_at(p) {
                Some(n) => if (c as int) < n.to@.len() {
                    match n.to@[c as int] {
                        Some(child) => Some(*child),
                        None => None,
                    }
                } else {
                    None
                },
                None => None,
            },
        decreases p.len(),
    {
        let q = p.push(c);
        if p.len() == 0 {
            assert(q.drop_first() =~= p);
            assert(q[0] == c);
            if (c as int) < self.to@.len() {
                match self.to@[c as int] {
                    Some(child) => {
                        assert((*child).node_at(q.drop_first()) == Some(*child));
                    },
                    None => {},
                }
            }
        } else {
            assert(q[0] == p[0]);
            assert(q.drop_first() =~= p.drop_first().push(c));
            if (p[0] as int) < self.to@.len() {
                match self.to@[p[0] as int] {
                    Some(child) => {
                        (*child).lemma_node_at_push(p.drop_first(), c);
                        assert(self.node_at(q) == (*child).node_at(p.drop_first().push(c)));
                        assert(self.node_at(p) == (*child).node_at(p.drop_first()));
                    },
                    None => {},
                }
            }
        }
    }

    /// Where no node exists at `p`, none exists at any extension of `p`.
    pub proof fn lemma_absent_extends(self, p: Seq<u8>, q: Seq<u8>)
        requires
            is_prefix(p, q),
            self.node_at(p) is None,
        ensures
            self.node_at(q) is None,
        decreases p.len(),
    {
        assert(q[0] == p[0]);
        if (p[0] as int) < self.to@.len() {
            match self.to@[p[0] as int] {
                Some(child) => {
                    assert(q.drop_first().subrange(0, p.drop_first().len() as int)
                        =~= p.drop_first());
                    (*child).lemma_absent_extends(p.drop_first(), q.drop_first());
                },
                None => {},
            }
        }
    }

    /// Walks down from this node along `key[idx..]` and returns the end of the
    /// longest stretch that leads to a node holding values, that node and its
    /// values; where there is none, `idx`, this node and its own values.
    pub fn find_longest<'a>(&'a self, key: &[u8], idx: usize) -> (ret: (
        usize,
        &'a TRIE,
        &'a Vec<(Vec<u8>, i64)>,
    ))
        requires
            self.wf(),
        ensures
            ret.0 == idx ==> *ret.1 == *self,
            ret.0 != idx ==> self.is_match(key@, idx as int, ret.0 as int) && self.node_at(
                key@.subrange(idx as int, ret.0 as int),
            ) == Some(*ret.1),
            forall|j: int| #[trigger] self.is_match(key@, idx as int, j) ==> j <= ret.0,
            *ret.2 == ret.1.values,
    {
        let mut u: &TRIE = self;
        let mut ret: (usize, &TRIE, &Vec<(Vec<u8>, i64)>) = (idx, self, &self.values);
        if idx >= key.len() {
            return ret;
        }
        let mut pos: usize = idx;
        assert(key@.subrange(idx as int, idx as int) =~= Seq::<u8>::empty());
        while pos < key.len()
            invariant
                self.wf(),
                idx <= pos <= key@.len(),
                self.node_at(key@.subrange(idx as int, pos as int)) == Some(*u),
                ret.0 == idx ==> *ret.1 == *self,
                ret.0 != idx ==> self.is_match(key@, idx as int, ret.0 as int) && self.node_at(
                    key@.subrange(idx as int, ret.0 as int),
                ) == Some(*ret.1),
                idx <= ret.0 <= pos,
                forall|j: int| idx < j <= pos && #[trigger] self.is_match(key@, idx as int, j) ==> j <= ret.0,
                *ret.2 == ret.1.values,
            ensures
                pos == key@.len() || self.node_at(key@.subrange(idx as int, pos + 1)) is None,
                self.node_at(key@.subrange(idx as int, pos as int)) is Some,
                idx <= pos <= key@.len(),
                ret.0 == idx ==> *ret.1 == *self,
                ret.0 != idx ==> self.is_match(key@, idx as int, ret.0 as int) && self.node_at(
                    key@.subrange(idx as int, ret.0 as int),
                ) == Some(*ret.1),
                idx <= ret.0 <= pos,
                forall|j: int| idx < j <= pos && #[trigger] self.is_match(key@, idx as int, j) ==> j <= ret.0,
                *ret.2 == ret.1.values,
            decreases key@.len() - pos,
        {
            let ch = key[pos];
            proof {
                assert(self.wf_at(key@.subrange(idx as int, pos as int)));
                assert(key@.subrange(idx as int, pos + 1) =~= key@.subrange(idx as int, pos as int).push(ch));
                self.lemma_node_at_push(key@.subrange(idx as int, pos as int), ch);
            }
            match &u.to[ch as usize] {
                Some(child) => {
                    u = child;
                    pos = pos + 1;
                    if u.values.len() > 0 {
                        ret = (pos, u, &u.values);
                    }
                },
                None => {
                    break;
                },
            }
        }
        proof {
            assert forall|j: int| #[trigger] self.is_match(key@, idx as int, j) implies j <= ret.0 by {
                if j > pos {
                    assert(key@.subrange(idx as int, j).subrange(0, pos + 1 - idx)
                        =~= key@.subrange(idx as int, pos + 1));
                    self.lemma_absent_extends(
                        key@.subrange(idx as int, pos + 1),
                        key@.subrange(idx as int, j),
                    );
                }
            }
        }
        ret
    }

    /// The view of the value that `add` stores for `key` and `val`.
    pub open spec fn added_entry(key: Seq<u8>, val: Option<(Vec<u8>, i64)>) -> (Seq<u8>, i64) {
        match val {
            Some(v) => entry_view(v),
            None => (key, 0),
        }
    }

    /// This trie is `old` with the value `v` added at `path`: the nodes on the
    /// way to `path` exist, those that did not exist before recording the byte
    /// that leads to them, every other node, byte and value is as before, and
    /// every node has a slot for every byte.
    pub open spec fn is_added(self, old: TRIE, path: Seq<u8>, v: (Seq<u8>, i64)) -> bool {
        &&& self.wf()
        &&& self.ch == old.ch
        &&& forall|q: Seq<u8>| #[trigger] self.present(q) <==> old.present(q) || is_prefix(q, path)
        &&& forall|q: Seq<u8>|
            #[trigger] self.ch_at(q) == if old.present(q) || !self.present(q) {
                old.ch_at(q)
            } else {
                Some(q.last())
            }
        &&& forall|q: Seq<u8>|
            #[trigger] self.values_at(q) == if q == path {
                old.values_at(q).insert(v)
            } else {
                old.values_at(q)
            }
    }

    /// Away from the subtree at `path`, this trie is `old` with the nodes on
    /// the way to `path` created: at every path that does not extend `path`
    /// the node has a slot for every byte, exists exactly where one existed
    /// before or where it leads to `path`, records the byte it recorded before
    /// (a new node: the byte that leads to it), and holds the values it held
    /// before; the root keeps its byte unless it is itself the node at `path`.
    pub open spec fn agrees_outside(self, old: TRIE, path: Seq<u8>) -> bool {
        &&& path.len() > 0 ==> self.ch == old.ch
        &&& forall|q: Seq<u8>| !is_prefix(path, q) ==> #[trigger] self.wf_at(q)
        &&& forall|q: Seq<u8>|
            !is_prefix(path, q) ==> (#[trigger] self.present(q) <==> old.present(q) || is_prefix(q, path))
        &&& forall|q: Seq<u8>|
            !is_prefix(path, q) ==> #[trigger] self.ch_at(q) == if old.present(q) || !self.present(q) {
                old.ch_at(q)
            } else {
                Some(q.last())
            }
        &&& forall|q: Seq<u8>| !is_prefix(path, q) ==> #[trigger] self.values_at(q) == old.values_at(q)
    }

    /// This node is the one that adding `v` at `path` to `old` leaves at
    /// `path`: with a slot for every byte, recording the byte the node there
    /// recorded (a new node: the byte that leads to it), holding the values
    /// `old` held at `path` together with `v`, and with the subtree `old` had
    /// below `path`.
    pub open spec fn is_added_node(self, old: TRIE, path: Seq<u8>, v: (Seq<u8>, i64)) -> bool {
        &&& self.node_wf()
        &&& self.ch == if old.present(path) {
            old.ch_at(path)
        } else {
            Some(path.last())
        }
        &&& values_view(self.values@).to_set() == old.values_at(path).insert(v)
        &&& forall|r: Seq<u8>| r.len() > 0 ==> #[trigger] self.wf_at(r)
        &&& forall|r: Seq<u8>| r.len() > 0 ==> (#[trigger] self.present(r) <==> old.present(path + r))
        &&& forall|r: Seq<u8>| r.len() > 0 ==> #[trigger] self.values_at(r) == old.values_at(path + r)
        &&& forall|r: Seq<u8>| r.len() > 0 ==> #[trigger] self.ch_at(r) == old.ch_at(path + r)
    }

    /// Adds a value for `key[idx..]` below this node, creating the missing
    /// nodes on the way; the value is `val`, or `(key, 0)` where `val` is
    /// `None`. Returns the node at the end of the path, which the trie holds
    /// from then on; away from that node the trie is this one with the path
    /// created. Where the caller does not change that node through the
    /// returned reference, the trie is this one with the value added.
    pub fn add(&mut self, key: &[u8], idx: usize, val: Option<(Vec<u8>, i64)>) -> (ret: &mut Self)
        requires
            old(self).wf(),
            idx <= key@.len(),
        ensures
            (*final(self)).node_at(key@.subrange(idx as int, key@.len() as int)) == Some(*final(ret)),
            (*final(self)).agrees_outside(*old(self), key@.subrange(idx as int, key@.len() as int)),
            (*ret).is_added_node(
                *old(self),
                key@.subrange(idx as int, key@.len() as int),
                Self::added_entry(key@, val),
            ),
            *final(ret) == *ret ==> (*final(self)).is_added(
                *old(self),
                key@.subrange(idx as int, key@.len() as int),
                Self::added_entry(key@, val),
            ),
        decreases key@.len() - idx,
    {
        let ghost path = key@.subrange(idx as int, key@.len() as int);
        let ghost v = Self::added_entry(key@, val);
        proof {
            assert(self.wf_at(Seq::<u8>::empty()));
        }
        if idx == key.len() {
            let ghost before = *self;
            let value = match val {
                Some(v) => v,
                None => (vstd::slice::slice_to_vec(key), 0),
            };
            insert_value(&mut self.values, value);
            proof {
                assert(path =~= Seq::<u8>::empty());
                lemma_values_changed(before, *self, v);
                lemma_values_changed_node(before, *self, v);
            }
            return self;
        }
        let ch = key[idx];
        let ghost before = *self;
        if self.to[ch as usize].is_none() {
            let fresh = TRIE::new(Some(ch));
            self.to.set(ch as usize, Some(Box::new(fresh)));
            proof {
                lemma_new_child(before, *self, ch, fresh);
            }
        } else {
            proof {
                assert(seq![ch].drop_first() =~= Seq::<u8>::empty());
                assert(before.node_at(seq![ch]) == (*before.to@[ch as int].unwrap()).node_at(
                    Seq::<u8>::empty(),
                ));
                assert(before.present(seq![ch]));
            }
        }
        let ghost mid = *self;
        let slot = &mut self.to[ch as usize];
        let child = slot.as_mut().unwrap();
        let inner: &mut TRIE = &mut **child;
        let ghost mid_child = *inner;
        proof {
            assert(mid.wf_at(seq![ch]));
            assert(seq![ch].drop_first() =~= Seq::<u8>::empty());
            assert(mid_child.wf()) by {
                assert forall|q: Seq<u8>| #[trigger] mid_child.wf_at(q) by {
                    assert((seq![ch] + q).drop_first() =~= q);
                    assert(mid.wf_at(seq![ch] + q));
                }
            }
        }
        proof {
            let tail = key@.subrange(idx + 1, key@.len() as int);
            assert(path[0] == ch);
            assert(path.drop_first() =~= tail);
            assert forall|fin: TRIE, fc: TRIE|
                fin.to@ == mid.to@.update(ch as int, Some(Box::new(fc))) implies #[trigger] fin.node_at(path)
                == #[trigger] fc.node_at(tail) by {
            }
            assert forall|fin: TRIE, fc: TRIE|
                fin.ch == mid.ch && fin.values == mid.values && fin.to@ == mid.to@.update(
                    ch as int,
                    Some(Box::new(fc)),
                ) && #[trigger] fc.is_added(mid_child, tail, v) implies #[trigger] fin.is_added(
                before,
                path,
                v,
            ) by {
                lemma_lift(mid, fin, ch, mid_child, fc, path, v);
                lemma_compose(before, mid, fin, ch, path, v);
            }
            assert forall|fin: TRIE, fc: TRIE|
                fin.ch == mid.ch && fin.values == mid.values && fin.to@ == mid.to@.update(
                    ch as int,
                    Some(Box::new(fc)),
                ) && #[trigger] fc.agrees_outside(mid_child, tail) implies #[trigger] fin.agrees_outside(
                before,
                path,
            ) by {
                lemma_lift_outside(before, mid, fin, ch, mid_child, fc, path);
            }
            assert forall|n: TRIE| #[trigger] n.is_added_node(mid_child, tail, v) implies n.is_added_node(
                before,
                path,
                v,
            ) by {
                lemma_lift_node(before, mid, ch, mid_child, n, path, v);
            }
        }
        let r = inner.add(key, idx + 1, val);
        r
    }
}

/// A non-empty `q` is a prefix of a non-empty `path` with the same first
/// byte exactly when their tails are prefixes of each other; with different
/// first bytes it is no prefix.
pub proof fn lemma_prefix_tail(q: Seq<u8>, path: Seq<u8>)
    requires
        q.len() > 0,
        path.len() > 0,
    ensures
        q[0] == path[0] ==> (is_prefix(q, path) <==> is_prefix(q.drop_first(), path.drop_first())),
        q[0] == path[0] ==> (q == path <==> q.drop_first() == path.drop_first()),
        q[0] != path[0] ==> !is_prefix(q, path) && q != path,
{
    if q[0] == path[0] {
        if q.len() <= path.len() {
            assert(path.subrange(0, q.len() as int).drop_first() =~= path.drop_first().subrange(
                0,
                q.drop_first().len() as int,
            ));
            if is_prefix(q.drop_first(), path.drop_first()) {
                assert forall|i: int| 0 <= i < q.len() implies path.subrange(0, q.len() as int)[i]
                    == q[i] by {
                    if i > 0 {
                        assert(q[i] == q.drop_first()[i - 1]);
                        assert(path[i] == path.drop_first()[i - 1]);
                    }
                }
                assert(path.subrange(0, q.len() as int) =~= q);
            }
        }
        if q.drop_first() == path.drop_first() {
            assert(q.drop_first().len() == q.len() - 1);
            assert(path.drop_first().len() == path.len() - 1);
            assert(q.len() == path.len());
            assert forall|i: int| 0 <= i < q.len() implies path[i] == q[i] by {
                if i > 0 {
                    assert(q[i] == q.drop_first()[i - 1]);
                    assert(path[i] == path.drop_first()[i - 1]);
                }
            }
            assert(q =~= path);
        }
    } else {
        if q.len() <= path.len() {
            assert(path.subrange(0, q.len() as int)[0] == path[0]);
        }
    }
}

/// Changing only the values of the root adds a value at the empty path.
proof fn lemma_values_changed(before: TRIE, after: TRIE, v: (Seq<u8>, i64))
    requires
        before.wf(),
        after.to == before.to,
        after.ch == before.ch,
        values_view(after.values@).to_set() == values_view(before.values@).to_set().insert(v),
    ensures
        after.is_added(before, Seq::<u8>::empty(), v),
{
    assert forall|q: Seq<u8>| q.len() > 0 implies #[trigger] after.node_at(q) == before.node_at(q) by {
    }
    assert forall|q: Seq<u8>| #[trigger] after.ch_at(q) == before.ch_at(q) by {
        if q.len() > 0 {
            assert(after.node_at(q) == before.node_at(q));
        }
    }
    assert forall|q: Seq<u8>| #[trigger] after.wf_at(q) by {
        assert(before.wf_at(q));
    }
    assert forall|q: Seq<u8>| #[trigger] after.present(q) <==> before.present(q) || is_prefix(q, Seq::<u8>::empty()) by {
        if q.len() == 0 {
            assert(q =~= Seq::<u8>::empty());
        }
    }
    assert forall|q: Seq<u8>| #[trigger] after.values_at(q) == if q == Seq::<u8>::empty() {
        before.values_at(q).insert(v)
    } else {
        before.values_at(q)
    } by {
        if q.len() == 0 {
            assert(q =~= Seq::<u8>::empty());
        }
    }
}

/// Changing only the values of the root leaves the node that an addition at
/// the empty path leaves.
proof fn lemma_values_changed_node(before: TRIE, after: TRIE, v: (Seq<u8>, i64))
    requires
        before.wf(),
        after.to == before.to,
        after.ch == before.ch,
        values_view(after.values@).to_set() == values_view(before.values@).to_set().insert(v),
    ensures
        after.is_added_node(before, Seq::<u8>::empty(), v),
        forall|q: Seq<u8>| #[trigger] is_prefix(Seq::<u8>::empty(), q),
{
    assert(before.wf_at(Seq::<u8>::empty()));
    assert forall|r: Seq<u8>| r.len() > 0 implies #[trigger] after.node_at(r) == before.node_at(
        Seq::<u8>::empty() + r,
    ) by {
        assert(Seq::<u8>::empty() + r =~= r);
    }
    assert forall|r: Seq<u8>| r.len() > 0 implies #[trigger] after.wf_at(r) by {
        assert(before.wf_at(r));
    }
    assert forall|r: Seq<u8>| r.len() > 0 implies (#[trigger] after.present(r) <==> before.present(
        Seq::<u8>::empty() + r,
    )) by {
        assert(Seq::<u8>::empty() + r =~= r);
    }
    assert forall|r: Seq<u8>| r.len() > 0 implies #[trigger] after.values_at(r) == before.values_at(
        Seq::<u8>::empty() + r,
    ) by {
        assert(Seq::<u8>::empty() + r =~= r);
    }
    assert forall|r: Seq<u8>| r.len() > 0 implies #[trigger] after.ch_at(r) == before.ch_at(
        Seq::<u8>::empty() + r,
    ) by {
        assert(Seq::<u8>::empty() + r =~= r);
    }
    assert forall|q: Seq<u8>| is_prefix(Seq::<u8>::empty(), q) by {
        assert(q.subrange(0, 0) =~= Seq::<u8>::empty());
    }
}

/// The node for byte `c` below `mid` sees at `r` what `mid` sees at `c`
/// followed by `r`.
proof fn lemma_child_node_at(mid: TRIE, c: u8, mc: TRIE, r: Seq<u8>)
    requires
        (c as int) < mid.to@.len(),
        mid.to@[c as int] == Some(Box::new(mc)),
    ensures
        mc.node_at(r) == mid.node_at(seq![c] + r),
{
    let q = seq![c] + r;
    assert(q[0] == c);
    assert(q.drop_first() =~= r);
}

/// Lifts the node left below the child for byte `c` to the node left below
/// the parent, where the child was there or was created fresh.
proof fn lemma_lift_node(
    before: TRIE,
    mid: TRIE,
    c: u8,
    mc: TRIE,
    n: TRIE,
    path: Seq<u8>,
    v: (Seq<u8>, i64),
)
    requires
        mid.wf(),
        path.len() > 0,
        path[0] == c,
        mid.to@.len() == ALPHABET,
        mid.to@[c as int] == Some(Box::new(mc)),
        forall|q: Seq<u8>| #[trigger] mid.present(q) <==> before.present(q) || q == seq![c],
        forall|q: Seq<u8>| #[trigger] mid.values_at(q) == before.values_at(q),
        forall|q: Seq<u8>| #[trigger] mid.ch_at(q) == if before.present(q) || q != seq![c] {
            before.ch_at(q)
        } else {
            Some(c)
        },
        n.is_added_node(mc, path.drop_first(), v),
    ensures
        n.is_added_node(before, path, v),
{
    let tail = path.drop_first();
    assert(path =~= seq![c] + tail);
    lemma_child_node_at(mid, c, mc, tail);
    assert(mc.node_at(tail) == mid.node_at(path));
    assert(mc.values_at(tail) == mid.values_at(path));
    assert(mid.values_at(path) == before.values_at(path));
    assert(mc.ch_at(tail) == mid.ch_at(path));
    if tail.len() > 0 {
        assert(path.last() == tail.last());
        assert(path != seq![c]);
        assert(mid.present(path) <==> before.present(path));
    } else {
        lemma_child_node_at(mid, c, mc, Seq::<u8>::empty());
        assert(seq![c] + Seq::<u8>::empty() =~= seq![c]);
        assert(path =~= seq![c]);
        assert(mc.node_at(tail) == Some(mc));
        assert(path.last() == c);
    }
    assert forall|r: Seq<u8>| r.len() > 0 implies (#[trigger] n.present(r) <==> before.present(path + r)) by {
        lemma_child_node_at(mid, c, mc, tail + r);
        assert(seq![c] + (tail + r) =~= path + r);
        assert(mid.present(path + r) <==> before.present(path + r) || path + r == seq![c]);
        assert((path + r).len() > 1);
    }
    assert forall|r: Seq<u8>| r.len() > 0 implies #[trigger] n.values_at(r) == before.values_at(path + r) by {
        lemma_child_node_at(mid, c, mc, tail + r);
        assert(seq![c] + (tail + r) =~= path + r);
        assert(mid.values_at(path + r) == before.values_at(path + r));
    }
    assert forall|r: Seq<u8>| r.len() > 0 implies #[trigger] n.ch_at(r) == before.ch_at(path + r) by {
        lemma_child_node_at(mid, c, mc, tail + r);
        assert(seq![c] + (tail + r) =~= path + r);
        assert((path + r).len() > 1);
        assert(path + r != seq![c]);
        assert(mid.ch_at(path + r) == before.ch_at(path + r));
    }
}

/// Lifts agreement away from the path below the child for byte `c` to the
/// parent, seen at one path `q`.
proof fn lemma_lift_outside_at(
    mid: TRIE,
    fin: TRIE,
    c: u8,
    mc: TRIE,
    fc: TRIE,
    path: Seq<u8>,
    q: Seq<u8>,
)
    requires
        mid.wf(),
        path.len() > 0,
        path[0] == c,
        mid.to@.len() == ALPHABET,
        mid.to@[c as int] == Some(Box::new(mc)),
        fin.ch == mid.ch,
        fin.values == mid.values,
        fin.to@ == mid.to@.update(c as int, Some(Box::new(fc))),
        fc.agrees_outside(mc, path.drop_first()),
        !is_prefix(path, q),
    ensures
        fin.wf_at(q),
        fin.present(q) <==> mid.present(q) || is_prefix(q, path),
        fin.values_at(q) == mid.values_at(q),
        fin.ch_at(q) == if mid.present(q) || !fin.present(q) {
            mid.ch_at(q)
        } else {
            Some(q.last())
        },
{
    assert(mid.wf_at(Seq::<u8>::empty()));
    assert(seq![c].drop_first() =~= Seq::<u8>::empty());
    assert(mid.wf_at(seq![c]));
    assert(mid.wf_at(q));
    if q.len() > 0 {
        lemma_prefix_tail(q, path);
        lemma_prefix_tail(path, q);
        if q[0] == c {
            let t = q.drop_first();
            let tail = path.drop_first();
            assert(!is_prefix(tail, t));
            assert(fc.wf_at(t));
            assert(fc.present(t) <==> mc.present(t) || is_prefix(t, tail));
            assert(fc.values_at(t) == mc.values_at(t));
            assert(fc.ch_at(t) == if mc.present(t) || !fc.present(t) {
                mc.ch_at(t)
            } else {
                Some(t.last())
            });
            if t.len() > 0 {
                assert(q.last() == t.last());
            } else {
                if tail.len() == 0 {
                    assert(path =~= q);
                    assert(q.subrange(0, path.len() as int) =~= q);
                    assert(false);
                }
                assert(fc.node_at(t) == Some(fc));
                assert(mc.node_at(t) == Some(mc));
                assert(q =~= seq![c]);
            }
        }
    } else {
        assert(path.subrange(0, 0) =~= q);
        assert(is_prefix(q, path));
    }
}

/// Lifts agreement away from the path below the child for byte `c` to the
/// parent, and composes it with the creation of that child.
proof fn lemma_lift_outside(
    before: TRIE,
    mid: TRIE,
    fin: TRIE,
    c: u8,
    mc: TRIE,
    fc: TRIE,
    path: Seq<u8>,
)
    requires
        mid.wf(),
        path.len() > 0,
        path[0] == c,
        mid.ch == before.ch,
        mid.to@.len() == ALPHABET,
        mid.to@[c as int] == Some(Box::new(mc)),
        forall|q: Seq<u8>| #[trigger] mid.present(q) <==> before.present(q) || q == seq![c],
        forall|q: Seq<u8>| #[trigger] mid.values_at(q) == before.values_at(q),
        forall|q: Seq<u8>| #[trigger] mid.ch_at(q) == if before.present(q) || q != seq![c] {
            before.ch_at(q)
        } else {
            Some(c)
        },
        fin.ch == mid.ch,
        fin.values == mid.values,
        fin.to@ == mid.to@.update(c as int, Some(Box::new(fc))),
        fc.agrees_outside(mc, path.drop_first()),
    ensures
        fin.agrees_outside(before, path),
{
    assert forall|q: Seq<u8>| !is_prefix(path, q) implies #[trigger] fin.wf_at(q) by {
        lemma_lift_outside_at(mid, fin, c, mc, fc, path, q);
    }
    assert forall|q: Seq<u8>| !is_prefix(path, q) implies (#[trigger] fin.present(q) <==> before.present(q)
        || is_prefix(q, path)) by {
        lemma_lift_outside_at(mid, fin, c, mc, fc, path, q);
        assert(mid.present(q) <==> before.present(q) || q == seq![c]);
        if q == seq![c] {
            assert(path.subrange(0, 1) =~= seq![c]);
        }
    }
    assert forall|q: Seq<u8>| !is_prefix(path, q) implies #[trigger] fin.values_at(q) == before.values_at(q) by {
        lemma_lift_outside_at(mid, fin, c, mc, fc, path, q);
        assert(mid.values_at(q) == before.values_at(q));
    }
    assert forall|q: Seq<u8>| !is_prefix(path, q) implies #[trigger] fin.ch_at(q) == if before.present(q)
        || !fin.present(q) {
        before.ch_at(q)
    } else {
        Some(q.last())
    } by {
        lemma_lift_outside_at(mid, fin, c, mc, fc, path, q);
        assert(mid.present(q) <==> before.present(q) || q == seq![c]);
        assert(mid.ch_at(q) == if before.present(q) || q != seq![c] {
            before.ch_at(q)
        } else {
            Some(c)
        });
        if q == seq![c] {
            assert(path.subrange(0, 1) =~= seq![c]);
            assert(q.last() == c);
        }
    }
}

/// Filling an empty child slot of a trie with a fresh node,
/// seen at one path `q`.
proof fn lemma_new_child_at(before: TRIE, mid: TRIE, c: u8, fresh: TRIE, q: Seq<u8>)
    requires
        before.wf(),
        before.to@[c as int] is None,
        mid.ch == before.ch,
        mid.values == before.values,
        mid.to@ == before.to@.update(c as int, Some(Box::new(fresh))),
        fresh.ch == Some(c),
        fresh.wf(),
        fresh.values@.len() == 0,
        forall|p: Seq<u8>| #[trigger] fresh.present(p) <==> p.len() == 0,
    ensures
        mid.wf_at(q),
        mid.present(q) <==> before.present(q) || q == seq![c],
        mid.values_at(q) == before.values_at(q),
        mid.ch_at(q) == if before.present(q) || q != seq![c] {
            before.ch_at(q)
        } else {
            Some(c)
        },
{
    assert(before.wf_at(Seq::<u8>::empty()));
    assert(values_view(fresh.values@) =~= Seq::<(Seq<u8>, i64)>::empty());
    assert(before.wf_at(q));
    if q.len() > 0 {
        if q[0] == c {
            assert(fresh.wf_at(q.drop_first()));
            assert(fresh.present(q.drop_first()) <==> q.drop_first().len() == 0);
            if q.len() == 1 {
                assert(q =~= seq![c]);
                assert(q.drop_first() =~= Seq::<u8>::empty());
                assert(fresh.node_at(q.drop_first()) == Some(fresh));
            } else {
                assert(q != seq![c]);
            }
        } else {
            assert(q != seq![c]);
        }
    } else {
        assert(q != seq![c]);
    }
}

/// Filling an empty child slot of a trie with a fresh node.
proof fn lemma_new_child(before: TRIE, mid: TRIE, c: u8, fresh: TRIE)
    requires
        before.wf(),
        before.to@[c as int] is None,
        mid.ch == before.ch,
        mid.values == before.values,
        mid.to@ == before.to@.update(c as int, Some(Box::new(fresh))),
        fresh.ch == Some(c),
        fresh.wf(),
        fresh.values@.len() == 0,
        forall|p: Seq<u8>| #[trigger] fresh.present(p) <==> p.len() == 0,
    ensures
        mid.wf(),
        forall|q: Seq<u8>| #[trigger] mid.present(q) <==> before.present(q) || q == seq![c],
        forall|q: Seq<u8>| #[trigger] mid.values_at(q) == before.values_at(q),
        forall|q: Seq<u8>| #[trigger] mid.ch_at(q) == if before.present(q) || q != seq![c] {
            before.ch_at(q)
        } else {
            Some(c)
        },
{
    assert forall|q: Seq<u8>| #[trigger] mid.wf_at(q) by {
        lemma_new_child_at(before, mid, c, fresh, q);
    }
    assert forall|q: Seq<u8>| #[trigger] mid.ch_at(q) == if before.present(q) || q != seq![c] {
        before.ch_at(q)
    } else {
        Some(c)
    } by {
        lemma_new_child_at(before, mid, c, fresh, q);
    }
    assert forall|q: Seq<u8>| #[trigger] mid.present(q) <==> before.present(q) || q == seq![c] by {
        lemma_new_child_at(before, mid, c, fresh, q);
    }
    assert forall|q: Seq<u8>| #[trigger] mid.values_at(q) == before.values_at(q) by {
        lemma_new_child_at(before, mid, c, fresh, q);
    }
}

/// Lifts an addition below the child for byte `c` to the parent, seen at
/// one path `q`.
proof fn lemma_lift_at(
    mid: TRIE,
    fin: TRIE,
    c: u8,
    mc: TRIE,
    fc: TRIE,
    path: Seq<u8>,
    v: (Seq<u8>, i64),
    q: Seq<u8>,
)
    requires
        mid.wf(),
        path.len() > 0,
        path[0] == c,
        mid.to@.len() == ALPHABET,
        mid.to@[c as int] == Some(Box::new(mc)),
        fin.ch == mid.ch,
        fin.values == mid.values,
        fin.to@ == mid.to@.update(c as int, Some(Box::new(fc))),
        fc.is_added(mc, path.drop_first(), v),
    ensures
        fin.wf_at(q),
        fin.present(q) <==> mid.present(q) || is_prefix(q, path),
        fin.ch_at(q) == if mid.present(q) || !fin.present(q) {
            mid.ch_at(q)
        } else {
            Some(q.last())
        },
        fin.values_at(q) == (if q == path {
            mid.values_at(q).insert(v)
        } else {
            mid.values_at(q)
        }),
{
    assert(mid.wf_at(Seq::<u8>::empty()));
    assert(seq![c].drop_first() =~= Seq::<u8>::empty());
    assert(mid.wf_at(seq![c]));
    assert(mid.wf_at(q));
    if q.len() > 0 {
        lemma_prefix_tail(q, path);
        if q[0] == c {
            let t = q.drop_first();
            assert(fc.wf_at(t));
            assert(fc.present(t) <==> mc.present(t) || is_prefix(t, path.drop_first()));
            assert(fc.values_at(t) == if t == path.drop_first() {
                mc.values_at(t).insert(v)
            } else {
                mc.values_at(t)
            });
            assert(fc.ch_at(t) == if mc.present(t) || !fc.present(t) {
                mc.ch_at(t)
            } else {
                Some(t.last())
            });
            if t.len() > 0 {
                assert(q.last() == t.last());
            } else {
                assert(fc.node_at(t) == Some(fc));
                assert(mc.node_at(t) == Some(mc));
                assert(q =~= seq![c]);
            }
        }
    } else {
        assert(path.subrange(0, 0) =~= q);
        assert(is_prefix(q, path));
        assert(q != path);
    }
}

/// Lifts an addition below the child for byte `c` to the parent.
proof fn lemma_lift(
    mid: TRIE,
    fin: TRIE,
    c: u8,
    mc: TRIE,
    fc: TRIE,
    path: Seq<u8>,
    v: (Seq<u8>, i64),
)
    requires
        mid.wf(),
        path.len() > 0,
        path[0] == c,
        mid.to@.len() == ALPHABET,
        mid.to@[c as int] == Some(Box::new(mc)),
        fin.ch == mid.ch,
        fin.values == mid.values,
        fin.to@ == mid.to@.update(c as int, Some(Box::new(fc))),
        fc.is_added(mc, path.drop_first(), v),
    ensures
        fin.is_added(mid, path, v),
{
    assert forall|q: Seq<u8>| #[trigger] fin.wf_at(q) by {
        lemma_lift_at(mid, fin, c, mc, fc, path, v, q);
    }
    assert forall|q: Seq<u8>| #[trigger] fin.present(q) <==> mid.present(q) || is_prefix(q, path) by {
        lemma_lift_at(mid, fin, c, mc, fc, path, v, q);
    }
    assert forall|q: Seq<u8>| #[trigger] fin.ch_at(q) == if mid.present(q) || !fin.present(q) {
        mid.ch_at(q)
    } else {
        Some(q.last())
    } by {
        lemma_lift_at(mid, fin, c, mc, fc, path, v, q);
    }
    assert forall|q: Seq<u8>| #[trigger] fin.values_at(q) == (if q == path {
        mid.values_at(q).insert(v)
    } else {
        mid.values_at(q)
    }) by {
        lemma_lift_at(mid, fin, c, mc, fc, path, v, q);
    }
}

/// Composes the creation of the child for `c` with an addition below it.
proof fn lemma_compose(before: TRIE, mid: TRIE, fin: TRIE, c: u8, path: Seq<u8>, v: (Seq<u8>, i64))
    requires
        fin.is_added(mid, path, v),
        path.len() > 0,
        path[0] == c,
        mid.ch == before.ch,
        forall|q: Seq<u8>| #[trigger] mid.present(q) <==> before.present(q) || q == seq![c],
        forall|q: Seq<u8>| #[trigger] mid.values_at(q) == before.values_at(q),
        forall|q: Seq<u8>| #[trigger] mid.ch_at(q) == if before.present(q) || q != seq![c] {
            before.ch_at(q)
        } else {
            Some(c)
        },
    ensures
        fin.is_added(before, path, v),
{
    assert forall|q: Seq<u8>| #[trigger] fin.ch_at(q) == if before.present(q) || !fin.present(q) {
        before.ch_at(q)
    } else {
        Some(q.last())
    } by {
        assert(mid.present(q) <==> before.present(q) || q == seq![c]);
        assert(fin.present(q) <==> mid.present(q) || is_prefix(q, path));
        assert(mid.ch_at(q) == if before.present(q) || q != seq![c] {
            before.ch_at(q)
        } else {
            Some(c)
        });
        if q == seq![c] {
            assert(path.subrange(0, 1) =~= seq![c]);
            assert(q.last() == c);
        }
    }
    assert forall|q: Seq<u8>| #[trigger] fin.present(q) <==> before.present(q) || is_prefix(q, path) by {
        assert(mid.present(q) <==> before.present(q) || q == seq![c]);
        if q == seq![c] {
            assert(path.subrange(0, 1) =~= seq![c]);
        }
    }
    assert forall|q: Seq<u8>| #[trigger] fin.values_at(q) == if q == path {
        before.values_at(q).insert(v)
    } else {
        before.values_at(q)
    } by {
        assert(mid.values_at(q) == before.values_at(q));
    }
}

/// Law: after a value is added for a non-empty path, looking that path up
/// finds a match that ends at the path's end.
pub proof fn lemma_added_is_found(after: TRIE, before: TRIE, path: Seq<u8>, v: (Seq<u8>, i64))
    requires
        after.is_added(before, path, v),
        path.len() > 0,
    ensures
        after.is_match(path, 0, path.len() as int),
{
    assert(path.subrange(0, path.len() as int) =~= path);
    assert(after.values_at(path).contains(v));
    match after.node_at(path) {
        Some(n) => {
            if n.values@.len() == 0 {
                assert(values_view(n.values@) =~= Seq::<(Seq<u8>, i64)>::empty());
            }
        },
        None => {},
    }
}

/// Law: adding the same value at the same path a second time changes no
/// node and no value.
pub proof fn lemma_add_idempotent(
    once: TRIE,
    twice: TRIE,
    before: TRIE,
    path: Seq<u8>,
    v: (Seq<u8>, i64),
)
    requires
        once.is_added(before, path, v),
        twice.is_added(once, path, v),
    ensures
        forall|q: Seq<u8>| #[trigger] twice.present(q) == once.present(q),
        forall|q: Seq<u8>| #[trigger] twice.values_at(q) == once.values_at(q),
{
    assert forall|q: Seq<u8>| #[trigger] twice.present(q) == once.present(q) by {
        assert(once.present(q) <==> before.present(q) || is_prefix(q, path));
    }
    assert forall|q: Seq<u8>| #[trigger] twice.values_at(q) == once.values_at(q) by {
        if q == path {
            assert(once.values_at(q).insert(v) =~= once.values_at(q));
        }
    }
}

} // verus!
