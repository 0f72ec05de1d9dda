//! SmartCRDT: a last-writer-wins map register, replicated by merging.
use vstd::prelude::*;

verus! {

/// A stored value of the register: its data, the logical time of its last
/// change, the node that wrote it, and whether it has been deleted.
#[derive(Debug, Clone)]
pub struct CrdtValue {
    pub data: String,
    pub version: u64,
    pub node_id: String,
    pub tombstone: bool,
}

/// The mathematical content of a `CrdtValue`.
pub struct CrdtValueView {
    pub data: Seq<char>,
    pub version: u64,
    pub node_id: Seq<char>,
    pub tombstone: bool,
}

impl View for CrdtValue {
    type V = CrdtValueView;

    open spec fn view(&self) -> CrdtValueView {
        CrdtValueView {
            data: self.data@,
            version: self.version,
            node_id: self.node_id@,
            tombstone: self.tombstone,
        }
    }
}

/// Last-writer-wins register of string keys.
///
/// The entries are kept as a vector of `(key, value)` pairs in which no key
/// occurs twice (see `wf`); the register's content is the map they spell.
pub struct SmartCrdt {
    pub values: Vec<(String, CrdtValue)>,
    pub node_id: String,
    pub clock: u64,
}

/// The map spelled by a sequence of entries; a later entry for a key hides an
/// earlier one (which never happens when keys are unique).
pub open spec fn entries_map(s: Seq<(String, CrdtValue)>) -> Map<Seq<char>, CrdtValueView>
    decreases s.len(),
{
    if s.len() == 0 {
        Map::empty()
    } else {
        entries_map(s.drop_last()).insert(s.last().0@, s.last().1@)
    }
}

/// No key occurs in two entries.
pub open spec fn keys_unique(s: Seq<(String, CrdtValue)>) -> bool {
    forall|i: int, j: int|
        0 <= i < s.len() && 0 <= j < s.len() && #[trigger] s[i].0@ == #[trigger] s[j].0@ ==> i == j
}

/// Strict lexicographic order on character sequences (code point by code
/// point), the order in which `String`s compare.
pub open spec fn seq_less(a: Seq<char>, b: Seq<char>) -> bool
    decreases a.len(),
{
    if a.len() == 0 {
        b.len() > 0
    } else if b.len() == 0 {
        false
    } else if a[0] != b[0] {
        (a[0] as int) < (b[0] as int)
    } else {
        seq_less(a.drop_first(), b.drop_first())
    }
}

/// Whether a write stamped `stamp` to `key` is accepted by `store`: the key
/// is absent, deleted, or holds an older version.
pub open spec fn write_allowed(store: Map<Seq<char>, CrdtValueView>, key: Seq<char>, stamp: u64) -> bool {
    !store.contains_key(key) || store[key].tombstone || stamp > store[key].version
}

/// Last-writer-wins order used by `merge`: `incoming` replaces `current`
/// when it has a higher version, or the same version and a node id that
/// sorts after that of `current`.
pub open spec fn supersedes(incoming: CrdtValueView, current: CrdtValueView) -> bool {
    ||| incoming.version > current.version
    ||| (incoming.version == current.version && seq_less(current.node_id, incoming.node_id))
}

/// The content of a register after merging `theirs` into `mine`.
pub open spec fn merged(
    mine: Map<Seq<char>, CrdtValueView>,
    theirs: Map<Seq<char>, CrdtValueView>,
) -> Map<Seq<char>, CrdtValueView> {
    Map::new(
        |k: Seq<char>| mine.contains_key(k) || theirs.contains_key(k),
        |k: Seq<char>|
            if theirs.contains_key(k) && (!mine.contains_key(k) || supersedes(theirs[k], mine[k])) {
                theirs[k]
            } else {
                mine[k]
            },
    )
}

/// Two register contents agree on stamps: wherever both hold a key with the
/// same version written by the same node, they hold the same value.
pub open spec fn stamps_agree(a: Map<Seq<char>, CrdtValueView>, b: Map<Seq<char>, CrdtValueView>) -> bool {
    forall|k: Seq<char>|
        #![trigger a[k], b[k]]
        a.contains_key(k) && b.contains_key(k) && a[k].version == b[k].version && a[k].node_id
            == b[k].node_id ==> a[k] == b[k]
}

/// No sequence sorts before itself.
pub proof fn lemma_seq_less_irreflexive(a: Seq<char>)
    ensures
        !seq_less(a, a),
    decreases a.len(),
{
    if a.len() > 0 {
        lemma_seq_less_irreflexive(a.drop_first());
    }
}

/// Of two distinct sequences exactly one sorts before the other.
pub proof fn lemma_seq_less_total(a: Seq<char>, b: Seq<char>)
    ensures
        !(seq_less(a, b) && seq_less(b, a)),
        a != b ==> seq_less(a, b) || seq_less(b, a),
    decreases a.len(),
{
    if a.len() > 0 && b.len() > 0 && a[0] == b[0] {
        lemma_seq_less_total(a.drop_first(), b.drop_first());
        if a.drop_first() == b.drop_first() {
            assert(a =~= b) by {
                assert forall|i: int| 0 <= i < a.len() implies a[i] == b[i] by {
                    if i > 0 {
                        assert(a[i] == a.drop_first()[i - 1]);
                        assert(b[i] == b.drop_first()[i - 1]);
                    }
                }
            }
        }
    } else if a.len() == 0 && b.len() == 0 {
        assert(a =~= b);
    } else if a.len() > 0 && b.len() > 0 {
        assert((a[0] as int) != (b[0] as int));
    }
}

/// The order on sequences is transitive.
pub proof fn lemma_seq_less_transitive(a: Seq<char>, b: Seq<char>, c: Seq<char>)
    requires
        seq_less(a, b),
        seq_less(b, c),
    ensures
        seq_less(a, c),
    decreases a.len(),
{
    if a.len() > 0 && b.len() > 0 && c.len() > 0 && a[0] == b[0] && b[0] == c[0] {
        lemma_seq_less_transitive(a.drop_first(), b.drop_first(), c.drop_first());
    }
}

/// Last-writer-wins acceptance: a write to a key that holds a live value is
/// accepted exactly when its stamp is strictly newer than the stored
/// version; a write to an absent or deleted key is always accepted.
pub proof fn lemma_write_acceptance(store: Map<Seq<char>, CrdtValueView>, key: Seq<char>, stamp: u64)
    ensures
        store.contains_key(key) && !store[key].tombstone ==> (write_allowed(store, key, stamp) <==> stamp
            > store[key].version),
        store.contains_key(key) && !store[key].tombstone && stamp <= store[key].version ==> !write_allowed(
            store,
            key,
            stamp,
        ),
        !store.contains_key(key) || store[key].tombstone ==> write_allowed(store, key, stamp),
{
}

/// A value accepted by `write` is what `read` then returns: live, with the
/// data written.
pub proof fn lemma_read_your_write(
    store: Map<Seq<char>, CrdtValueView>,
    key: Seq<char>,
    data: Seq<char>,
    stamp: u64,
    node: Seq<char>,
)
    ensures
        ({
            let after = store.insert(
                key,
                CrdtValueView { data, version: stamp, node_id: node, tombstone: false },
            );
            &&& after.contains_key(key)
            &&& !after[key].tombstone
            &&& after[key].data == data
        }),
{
}

/// After `delete` of a present key, `read` of that key finds nothing, and a
/// later `write` to it is accepted.
pub proof fn lemma_delete_hides(store: Map<Seq<char>, CrdtValueView>, key: Seq<char>, stamp: u64, next: u64)
    requires
        store.contains_key(key),
    ensures
        ({
            let after = store.insert(key, CrdtValueView { version: stamp, tombstone: true, ..store[key] });
            &&& after.contains_key(key) && after[key].tombstone
            &&& write_allowed(after, key, next)
        }),
{
}

/// Last writer wins on merge: for a key held by both replicas, the value
/// with the strictly higher version is kept, whichever side it is on; a key
/// held by one replica only keeps that replica's value.
pub proof fn lemma_merge_last_writer_wins(
    a: Map<Seq<char>, CrdtValueView>,
    b: Map<Seq<char>, CrdtValueView>,
    k: Seq<char>,
)
    ensures
        a.contains_key(k) && b.contains_key(k) && b[k].version > a[k].version ==> merged(a, b)[k] == b[k],
        a.contains_key(k) && b.contains_key(k) && a[k].version > b[k].version ==> merged(a, b)[k] == a[k],
        a.contains_key(k) && !b.contains_key(k) ==> merged(a, b)[k] == a[k],
        !a.contains_key(k) && b.contains_key(k) ==> merged(a, b)[k] == b[k],
        !a.contains_key(k) && !b.contains_key(k) ==> !merged(a, b).contains_key(k),
{
}

/// The node order is lexicographic: a proper prefix sorts first, and
/// otherwise the first differing character decides.
pub proof fn lemma_seq_less_lexicographic(p: Seq<char>, x: Seq<char>, y: Seq<char>)
    ensures
        x.len() > 0 ==> seq_less(p, p + x),
        x.len() > 0 && y.len() > 0 && (x[0] as int) < (y[0] as int) ==> seq_less(p + x, p + y),
    decreases p.len(),
{
    if p.len() > 0 {
        lemma_seq_less_lexicographic(p.drop_first(), x, y);
        assert((p + x).drop_first() =~= p.drop_first() + x);
        assert((p + y).drop_first() =~= p.drop_first() + y);
        assert((p + x)[0] == p[0]);
        assert((p + y)[0] == p[0]);
    } else {
        assert(p + x =~= x);
        assert(p + y =~= y);
    }
}

/// Merging keeps every key of both sides and never lowers a key's version.
pub proof fn lemma_merge_monotone(a: Map<Seq<char>, CrdtValueView>, b: Map<Seq<char>, CrdtValueView>)
    ensures
        merged(a, b).dom() == a.dom().union(b.dom()),
        forall|k: Seq<char>| #[trigger] a.contains_key(k) ==> merged(a, b)[k].version >= a[k].version,
        forall|k: Seq<char>| #[trigger] b.contains_key(k) ==> merged(a, b)[k].version >= b[k].version,
{
    assert(merged(a, b).dom() =~= a.dom().union(b.dom()));
    assert forall|k: Seq<char>| #[trigger] b.contains_key(k) implies merged(a, b)[k].version >= b[k].version by {
        if a.contains_key(k) && !supersedes(b[k], a[k]) {
            lemma_seq_less_total(a[k].node_id, b[k].node_id);
        }
    }
}

/// Merging a replica into itself changes nothing.
pub proof fn lemma_merge_self(a: Map<Seq<char>, CrdtValueView>)
    ensures
        merged(a, a) == a,
{
    assert forall|k: Seq<char>| #[trigger] a.contains_key(k) implies merged(a, a)[k] == a[k] by {
        lemma_seq_less_irreflexive(a[k].node_id);
    }
    assert(merged(a, a) =~= a);
}

/// Merging the same replica twice is merging it once.
pub proof fn lemma_merge_idempotent(a: Map<Seq<char>, CrdtValueView>, b: Map<Seq<char>, CrdtValueView>)
    ensures
        merged(merged(a, b), b) == merged(a, b),
{
    let m = merged(a, b);
    assert forall|k: Seq<char>| #[trigger] m.contains_key(k) implies merged(m, b)[k] == m[k] by {
        if b.contains_key(k) {
            lemma_seq_less_irreflexive(b[k].node_id);
            if a.contains_key(k) {
                lemma_seq_less_total(a[k].node_id, b[k].node_id);
            }
        }
    }
    assert(merged(m, b) =~= m);
}

/// Two replicas that merge each other end equal: merging is commutative
/// when the replicas agree on stamps.
pub proof fn lemma_merge_commutative(a: Map<Seq<char>, CrdtValueView>, b: Map<Seq<char>, CrdtValueView>)
    requires
        stamps_agree(a, b),
    ensures
        merged(a, b) == merged(b, a),
{
    assert forall|k: Seq<char>| #[trigger] merged(a, b).contains_key(k) implies merged(a, b)[k] == merged(
        b,
        a,
    )[k] by {
        if a.contains_key(k) && b.contains_key(k) {
            lemma_seq_less_total(a[k].node_id, b[k].node_id);
        }
    }
    assert(merged(a, b) =~= merged(b, a));
}

/// Merging is associative when the replicas agree on stamps pairwise: the
/// order in which three replicas are combined does not matter.
pub proof fn lemma_merge_associative(
    a: Map<Seq<char>, CrdtValueView>,
    b: Map<Seq<char>, CrdtValueView>,
    c: Map<Seq<char>, CrdtValueView>,
)
    requires
        stamps_agree(a, b),
        stamps_agree(b, c),
        stamps_agree(a, c),
    ensures
        merged(merged(a, b), c) == merged(a, merged(b, c)),
{
    let l = merged(merged(a, b), c);
    let r = merged(a, merged(b, c));
    assert forall|k: Seq<char>| #[trigger] l.contains_key(k) implies l[k] == r[k] by {
        if a.contains_key(k) && b.contains_key(k) {
            lemma_seq_less_total(a[k].node_id, b[k].node_id);
        }
        if b.contains_key(k) && c.contains_key(k) {
            lemma_seq_less_total(b[k].node_id, c[k].node_id);
        }
        if a.contains_key(k) && c.contains_key(k) {
            lemma_seq_less_total(a[k].node_id, c[k].node_id);
        }
        if a.contains_key(k) && b.contains_key(k) && c.contains_key(k) {
            if seq_less(a[k].node_id, b[k].node_id) && seq_less(b[k].node_id, c[k].node_id) {
                lemma_seq_less_transitive(a[k].node_id, b[k].node_id, c[k].node_id);
            }
            if seq_less(c[k].node_id, b[k].node_id) && seq_less(b[k].node_id, a[k].node_id) {
                lemma_seq_less_transitive(c[k].node_id, b[k].node_id, a[k].node_id);
            }
            if seq_less(a[k].node_id, c[k].node_id) && seq_less(c[k].node_id, b[k].node_id) {
                lemma_seq_less_transitive(a[k].node_id, c[k].node_id, b[k].node_id);
            }
            if seq_less(b[k].node_id, a[k].node_id) && seq_less(a[k].node_id, c[k].node_id) {
                lemma_seq_less_transitive(b[k].node_id, a[k].node_id, c[k].node_id);
            }
            if seq_less(b[k].node_id, c[k].node_id) && seq_less(c[k].node_id, a[k].node_id) {
                lemma_seq_less_transitive(b[k].node_id, c[k].node_id, a[k].node_id);
            }
            if seq_less(c[k].node_id, a[k].node_id) && seq_less(a[k].node_id, b[k].node_id) {
                lemma_seq_less_transitive(c[k].node_id, a[k].node_id, b[k].node_id);
            }
        }
    }
    assert(l =~= r);
}

proof fn lemma_entries_map_dom(s: Seq<(String, CrdtValue)>, k: Seq<char>)
    ensures
        entries_map(s).contains_key(k) <==> exists|i: int| 0 <= i < s.len() && #[trigger] s[i].0@ == k,
    decreases s.len(),
{
    if s.len() > 0 {
        lemma_entries_map_dom(s.drop_last(), k);
        if entries_map(s.drop_last()).contains_key(k) {
            let i = choose|i: int| 0 <= i < s.drop_last().len() && #[trigger] s.drop_last()[i].0@ == k;
            assert(s[i].0@ == k);
        }
        if exists|i: int| 0 <= i < s.len() && #[trigger] s[i].0@ == k {
            let i = choose|i: int| 0 <= i < s.len() && #[trigger] s[i].0@ == k;
            if i < s.len() - 1 {
                assert(s.drop_last()[i].0@ == k);
            }
        }
    }
}

proof fn lemma_entries_map_at(s: Seq<(String, CrdtValue)>, i: int)
    requires
        keys_unique(s),
        0 <= i < s.len(),
    ensures
        entries_map(s).contains_key(s[i].0@),
        entries_map(s)[s[i].0@] == s[i].1@,
    decreases s.len(),
{
    lemma_entries_map_dom(s, s[i].0@);
    if i < s.len() - 1 {
        let t = s.drop_last();
        assert(keys_unique(t)) by {
            assert forall|a: int, b: int|
                0 <= a < t.len() && 0 <= b < t.len() && #[trigger] t[a].0@ == #[trigger] t[b].0@ implies a == b by {
                assert(s[a].0@ == s[b].0@);
            }
        }
        assert(t[i] == s[i]);
        lemma_entries_map_at(t, i);
        assert(s.last().0@ != s[i].0@) by {
            if s.last().0@ == s[i].0@ {
                assert(s[s.len() - 1].0@ == s[i].0@);
            }
        }
    }
}

proof fn lemma_entries_map_update(s: Seq<(String, CrdtValue)>, i: int, e: (String, CrdtValue))
    requires
        keys_unique(s),
        0 <= i < s.len(),
        e.0@ == s[i].0@,
    ensures
        keys_unique(s.update(i, e)),
        entries_map(s.update(i, e)) == entries_map(s).insert(e.0@, e.1@),
{
    let t = s.update(i, e);
    assert(keys_unique(t)) by {
        assert forall|a: int, b: int|
            0 <= a < t.len() && 0 <= b < t.len() && #[trigger] t[a].0@ == #[trigger] t[b].0@ implies a == b by {
            assert(s[a].0@ == t[a].0@);
            assert(s[b].0@ == t[b].0@);
        }
    }
    assert forall|k: Seq<char>| #![auto]
        entries_map(t).contains_key(k) == entries_map(s).insert(e.0@, e.1@).contains_key(k) by {
        lemma_entries_map_dom(s, k);
        lemma_entries_map_dom(t, k);
        if exists|j: int| 0 <= j < s.len() && #[trigger] s[j].0@ == k {
            let j = choose|j: int| 0 <= j < s.len() && #[trigger] s[j].0@ == k;
            assert(t[j].0@ == k);
        }
        if exists|j: int| 0 <= j < t.len() && #[trigger] t[j].0@ == k {
            let j = choose|j: int| 0 <= j < t.len() && #[trigger] t[j].0@ == k;
            assert(s[j].0@ == k);
        }
    }
    assert forall|k: Seq<char>| #[trigger] entries_map(t).contains_key(k) implies entries_map(t)[k]
        == entries_map(s).insert(e.0@, e.1@)[k] by {
        lemma_entries_map_dom(t, k);
        let j = choose|j: int| 0 <= j < t.len() && #[trigger] t[j].0@ == k;
        lemma_entries_map_at(t, j);
        assert(s[j].0@ == k);
        lemma_entries_map_at(s, j);
    }
    assert(entries_map(t) =~= entries_map(s).insert(e.0@, e.1@));
}

proof fn lemma_entries_map_push(s: Seq<(String, CrdtValue)>, e: (String, CrdtValue))
    requires
        keys_unique(s),
        !entries_map(s).contains_key(e.0@),
    ensures
        keys_unique(s.push(e)),
        entries_map(s.push(e)) == entries_map(s).insert(e.0@, e.1@),
{
    let t = s.push(e);
    assert(t.drop_last() =~= s);
    assert(keys_unique(t)) by {
        assert forall|a: int, b: int|
            0 <= a < t.len() && 0 <= b < t.len() && #[trigger] t[a].0@ == #[trigger] t[b].0@ implies a == b by {
            lemma_entries_map_dom(s, e.0@);
            if a < s.len() && b == s.len() {
                assert(s[a].0@ == e.0@);
            }
            if b < s.len() && a == s.len() {
                assert(s[b].0@ == e.0@);
            }
            if a < s.len() && b < s.len() {
                assert(s[a].0@ == s[b].0@);
            }
        }
    }
}

proof fn lemma_entries_map_take_step(s: Seq<(String, CrdtValue)>, j: int)
    requires
        0 <= j < s.len(),
    ensures
        entries_map(s.take(j + 1)) == entries_map(s.take(j)).insert(s[j].0@, s[j].1@),
{
    assert(s.take(j + 1).drop_last() =~= s.take(j));
}

impl View for SmartCrdt {
    type V = Map<Seq<char>, CrdtValueView>;

    /// The register's content: each key with its value.
    open spec fn view(&self) -> Map<Seq<char>, CrdtValueView> {
        entries_map(self.values@)
    }
}

impl SmartCrdt {
    /// The register's entries have unique keys.
    pub open spec fn wf(&self) -> bool {
        keys_unique(self.values@)
    }

    /// An empty register owned by node `node_id`, with its clock at zero.
    pub fn new(node_id: &str) -> (r: Self)
        ensures
            r.wf(),
            r@ == Map::<Seq<char>, CrdtValueView>::empty(),
            r.values@.len() == 0,
            r.node_id@ == node_id@,
            r.clock == 0,
    {
        SmartCrdt { values: Vec::new(), node_id: node_id.to_owned(), clock: 0 }
    }

    /// The position of the entry for `key`, if there is one.
    fn find(&self, key: &String) -> (r: Option<usize>)
        requires
            self.wf(),
        ensures
            match r {
                Some(i) => i < self.values@.len() && self.values@[i as int].0@ == key@
                    && self@.contains_key(key@) && self@[key@] == self.values@[i as int].1@,
                None => !self@.contains_key(key@),
            },
    {
        let mut i: usize = 0;
        while i < self.values.len()
            invariant
                self.wf(),
                i <= self.values@.len(),
                forall|j: int| 0 <= j < i ==> #[trigger] self.values@[j].0@ != key@,
            decreases self.values@.len() - i,
        {
            if self.values[i].0 == *key {
                proof {
                    lemma_entries_map_at(self.values@, i as int);
                }
                return Some(i);
            }
            i += 1;
        }
        proof {
            lemma_entries_map_dom(self.values@, key@);
        }
        None
    }

    /// Writes `data` under `key` at the next tick of the clock.
    ///
    /// The clock always advances. The write is accepted when the key is
    /// absent, deleted, or holds a version older than the new tick; then the
    /// key maps to a live value stamped with the tick and this node's id.
    /// Returns whether the write was accepted.
    pub fn write(&mut self, key: &str, data: &str) -> (written: bool)
        requires
            old(self).wf(),
            old(self).clock < u64::MAX,
        ensures
            final(self).wf(),
            final(self).clock == old(self).clock + 1,
            final(self).node_id == old(self).node_id,
            written == write_allowed(old(self)@, key@, final(self).clock),
            old(self)@.contains_key(key@) && !old(self)@[key@].tombstone ==> (written <==> final(self).clock
                > old(self)@[key@].version),
            !old(self)@.contains_key(key@) || old(self)@[key@].tombstone ==> written,
            written ==> final(self)@ == old(self)@.insert(
                key@,
                CrdtValueView {
                    data: data@,
                    version: final(self).clock,
                    node_id: old(self).node_id@,
                    tombstone: false,
                },
            ),
            !written ==> final(self)@ == old(self)@,
    {
        self.clock = self.clock + 1;
        let k = key.to_owned();
        let pos = self.find(&k);
        let should_write = match pos {
            None => true,
            Some(i) => self.values[i].1.tombstone || self.clock > self.values[i].1.version,
        };
        if should_write {
            let v = CrdtValue {
                data: data.to_owned(),
                version: self.clock,
                node_id: self.node_id.clone(),
                tombstone: false,
            };
            match pos {
                Some(i) => {
                    proof {
                        lemma_entries_map_update(self.values@, i as int, (k, v));
                    }
                    self.values.set(i, (k, v));
                },
                None => {
                    proof {
                        lemma_entries_map_push(self.values@, (k, v));
                    }
                    self.values.push((k, v));
                },
            }
        }
        should_write
    }

    /// The live value stored under `key`: `None` when the key is absent or
    /// deleted.
    pub fn read(&self, key: &str) -> (r: Option<&CrdtValue>)
        requires
            self.wf(),
        ensures
            match r {
                Some(v) => self@.contains_key(key@) && !self@[key@].tombstone && v@ == self@[key@],
                None => !self@.contains_key(key@) || self@[key@].tombstone,
            },
    {
        let k = key.to_owned();
        match self.find(&k) {
            Some(i) => {
                if self.values[i].1.tombstone {
                    None
                } else {
                    Some(&self.values[i].1)
                }
            },
            None => None,
        }
    }

    /// Marks the value under `key` deleted at the next tick of the clock.
    ///
    /// Returns whether the key was present (deleted or not); only then does
    /// the clock advance and the value become a tombstone stamped with the
    /// new tick, keeping its data and writer.
    pub fn delete(&mut self, key: &str) -> (removed: bool)
        requires
            old(self).wf(),
            old(self)@.contains_key(key@) ==> old(self).clock < u64::MAX,
        ensures
            final(self).wf(),
            final(self).node_id == old(self).node_id,
            removed == old(self)@.contains_key(key@),
            removed ==> final(self).clock == old(self).clock + 1 && final(self)@ == old(self)@.insert(
                key@,
                CrdtValueView {
                    version: final(self).clock,
                    tombstone: true,
                    ..old(self)@[key@]
                },
            ),
            !removed ==> final(self).clock == old(self).clock && final(self)@ == old(self)@,
    {
        let k = key.to_owned();
        match self.find(&k) {
            Some(i) => {
                self.clock = self.clock + 1;
                let v = CrdtValue {
                    data: self.values[i].1.data.clone(),
                    version: self.clock,
                    node_id: self.values[i].1.node_id.clone(),
                    tombstone: true,
                };
                proof {
                    lemma_entries_map_update(self.values@, i as int, (k, v));
                }
                self.values.set(i, (k, v));
                true
            },
            None => false,
        }
    }

    /// Merges another replica into this one: each key of `other` whose value
    /// supersedes ours (or that we lack) is copied over; the clock and node
    /// id stay as they are.
    pub fn merge(&mut self, other: &SmartCrdt)
        requires
            old(self).wf(),
            other.wf(),
        ensures
            final(self).wf(),
            final(self)@ == merged(old(self)@, other@),
            final(self).clock == old(self).clock,
            final(self).node_id == old(self).node_id,
    {
        let ghost mine = self@;
        let mut j: usize = 0;
        while j < other.values.len()
            invariant
                j <= other.values@.len(),
                other.wf(),
                self.wf(),
                self.clock == old(self).clock,
                self.node_id == old(self).node_id,
                mine == old(self)@,
                self@ == merged(mine, entries_map(other.values@.take(j as int))),
            decreases other.values@.len() - j,
        {
            let ghost theirs = entries_map(other.values@.take(j as int));
            let ghost kj = other.values@[j as int].0@;
            let ghost vj = other.values@[j as int].1@;
            proof {
                lemma_entries_map_take_step(other.values@, j as int);
                lemma_entries_map_dom(other.values@.take(j as int), kj);
                assert(!theirs.contains_key(kj)) by {
                    if theirs.contains_key(kj) {
                        let i = choose|i: int|
                            0 <= i < other.values@.take(j as int).len()
                                && #[trigger] other.values@.take(j as int)[i].0@ == kj;
                        assert(other.values@[i].0@ == other.values@[j as int].0@);
                    }
                }
            }
            let key = &other.values[j].0;
            let incoming = &other.values[j].1;
            let pos = self.find(key);
            let take = match pos {
                None => true,
                Some(i) => {
                    let current = &self.values[i].1;
                    incoming.version > current.version || (incoming.version == current.version
                        && node_precedes(&current.node_id, &incoming.node_id))
                },
            };
            if take {
                let v = CrdtValue {
                    data: incoming.data.clone(),
                    version: incoming.version,
                    node_id: incoming.node_id.clone(),
                    tombstone: incoming.tombstone,
                };
                let k = key.clone();
                match pos {
                    Some(i) => {
                        proof {
                            lemma_entries_map_update(self.values@, i as int, (k, v));
                        }
                        self.values.set(i, (k, v));
                    },
                    None => {
                        proof {
                            lemma_entries_map_push(self.values@, (k, v));
                        }
                        self.values.push((k, v));
                    },
                }
            }
            proof {
                let theirs2 = entries_map(other.values@.take(j + 1));
                assert(self@ =~= merged(mine, theirs2));
            }
            j += 1;
        }
        proof {
            assert(other.values@.take(other.values@.len() as int) =~= other.values@);
        }
    }
}

/// Whether `a` sorts strictly before `b`, comparing code point by code point.
pub fn node_precedes(a: &String, b: &String) -> (r: bool)
    ensures
        r == seq_less(a@, b@),
{
    let sa = a.as_str();
    let sb = b.as_str();
    let la = sa.unicode_len();
    let lb = sb.unicode_len();
    let mut i: usize = 0;
    proof {
        assert(a@.skip(0) =~= a@);
        assert(b@.skip(0) =~= b@);
    }
    while i < la && i < lb
        invariant
            i <= la,
            i <= lb,
            la == a@.len(),
            lb == b@.len(),
            sa@ == a@,
            sb@ == b@,
            seq_less(a@, b@) == seq_less(a@.skip(i as int), b@.skip(i as int)),
        decreases la - i,
    {
        let ca = sa.get_char(i);
        let cb = sb.get_char(i);
        if ca != cb {
            return ca < cb;
        }
        proof {
            assert(a@.skip(i as int).drop_first() =~= a@.skip(i + 1));
            assert(b@.skip(i as int).drop_first() =~= b@.skip(i + 1));
        }
        i += 1;
    }
    i < lb
}

} // verus!
