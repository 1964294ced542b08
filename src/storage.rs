//! The storage engine: a keyspace of typed values and the semantics of each
//! storage command over it.
use vstd::prelude::*;

use crate::number::{in_i64, integer_text, parse_integer_text};
use crate::transaction::TransactionLogError;
use crate::types::{blob_views, Blob, BlobSet, Key, Value, ValueView};

verus! {

/// A request to the storage engine.
#[derive(Debug, PartialEq, Eq)]
pub enum StorageCommand {
    Put(Key, Value),
    Get(Key),
    Incr(Key),
    Decr(Key),
    SetAdd(Key, Blob),
    SetRemove(Key, Blob),
    SetIntersection(Vec<Key>),
    SetUnion(Vec<Key>),
    SetMembers(Key),
}

/// The mathematical content of a [`StorageCommand`].
pub enum StorageCommandView {
    Put(Seq<u8>, ValueView),
    Get(Seq<u8>),
    Incr(Seq<u8>),
    Decr(Seq<u8>),
    SetAdd(Seq<u8>, Seq<u8>),
    SetRemove(Seq<u8>, Seq<u8>),
    SetIntersection(Seq<Seq<u8>>),
    SetUnion(Seq<Seq<u8>>),
    SetMembers(Seq<u8>),
}

impl View for StorageCommand {
    type V = StorageCommandView;

    open spec fn view(&self) -> StorageCommandView {
        match self {
            StorageCommand::Put(k, v) => StorageCommandView::Put(k@, v@),
            StorageCommand::Get(k) => StorageCommandView::Get(k@),
            StorageCommand::Incr(k) => StorageCommandView::Incr(k@),
            StorageCommand::Decr(k) => StorageCommandView::Decr(k@),
            StorageCommand::SetAdd(k, m) => StorageCommandView::SetAdd(k@, m@),
            StorageCommand::SetRemove(k, m) => StorageCommandView::SetRemove(k@, m@),
            StorageCommand::SetIntersection(ks) => StorageCommandView::SetIntersection(blob_views(ks@)),
            StorageCommand::SetUnion(ks) => StorageCommandView::SetUnion(blob_views(ks@)),
            StorageCommand::SetMembers(k) => StorageCommandView::SetMembers(k@),
        }
    }
}

impl Clone for StorageCommand {
    fn clone(&self) -> (r: Self)
        ensures
            r@ == self@,
            self.wf() ==> r.wf(),
    {
        match self {
            StorageCommand::Put(k, v) => StorageCommand::Put(k.clone(), v.clone()),
            StorageCommand::Get(k) => StorageCommand::Get(k.clone()),
            StorageCommand::Incr(k) => StorageCommand::Incr(k.clone()),
            StorageCommand::Decr(k) => StorageCommand::Decr(k.clone()),
            StorageCommand::SetAdd(k, m) => StorageCommand::SetAdd(k.clone(), m.clone()),
            StorageCommand::SetRemove(k, m) => StorageCommand::SetRemove(k.clone(), m.clone()),
            StorageCommand::SetIntersection(ks) => {
                let c = ks.clone();
                assert(blob_views(c@) =~= blob_views(ks@));
                StorageCommand::SetIntersection(c)
            },
            StorageCommand::SetUnion(ks) => {
                let c = ks.clone();
                assert(blob_views(c@) =~= blob_views(ks@));
                StorageCommand::SetUnion(c)
            },
            StorageCommand::SetMembers(k) => StorageCommand::SetMembers(k.clone()),
        }
    }
}

impl StorageCommand {
    /// Well-formed: a value to store is well-formed.
    pub open spec fn wf(&self) -> bool {
        match self {
            StorageCommand::Put(_, v) => v.wf(),
            _ => true,
        }
    }
}

impl StorageCommandView {
    /// Whether the command changes the keyspace when it succeeds, and so goes
    /// to the log before it is applied.
    pub open spec fn is_mutating(self) -> bool {
        match self {
            StorageCommandView::Put(..) | StorageCommandView::Incr(_) | StorageCommandView::Decr(_)
            | StorageCommandView::SetAdd(..) | StorageCommandView::SetRemove(..) => true,
            _ => false,
        }
    }
}

/// Why a storage command failed.
#[derive(Debug, PartialEq, Eq, Structural)]
pub enum StorageError {
    /// The increment or decrement leaves the range of `i64`.
    Overflow,
    /// The key holds a value that does not read as an integer.
    NotAnInteger,
    /// The key does not hold a set.
    NotASet,
    /// The log writer failed.
    LogError(TransactionLogError),
    /// Some other failure.
    Failed,
}

/// The keyspace, as a mapping from key bytes to values.
pub type Keyspace = Map<Seq<u8>, ValueView>;

/// The outcome of a storage command, as views.
pub type Reply = Result<Option<ValueView>, StorageError>;

/// The view of an outcome.
pub open spec fn reply_view(r: &Result<Option<Value>, StorageError>) -> Reply {
    match r {
        Ok(Some(v)) => Ok(Some(v@)),
        Ok(None) => Ok(None),
        Err(e) => Err(*e),
    }
}

/// The integer that the value at `k` counts as: 0 where `k` is absent, an
/// integer, or a blob that spells an integer.
pub open spec fn current_integer(m: Keyspace, k: Seq<u8>) -> Option<i64> {
    if !m.contains_key(k) {
        Some(0)
    } else {
        match m[k] {
            ValueView::Int(i) => Some(i),
            ValueView::Blob(b) => integer_text(b),
            _ => None,
        }
    }
}

/// Adds `amount` to the integer at `k`.
pub open spec fn add_step(m: Keyspace, k: Seq<u8>, amount: int) -> (Keyspace, Reply) {
    match current_integer(m, k) {
        None => (m, Err(StorageError::NotAnInteger)),
        Some(i) => if in_i64(i + amount) {
            let n = (i + amount) as i64;
            (m.insert(k, ValueView::Int(n)), Ok(Some(ValueView::Int(n))))
        } else {
            (m, Err(StorageError::Overflow))
        },
    }
}

/// Whether the key holds a set.
pub open spec fn holds_set(m: Keyspace, k: Seq<u8>) -> bool {
    m.contains_key(k) && m[k] is Members
}

/// The set at `k`, where it holds one.
pub open spec fn set_at(m: Keyspace, k: Seq<u8>) -> Set<Seq<u8>> {
    m[k]->Members_0
}

/// Whether every listed key holds a set, and there is at least one.
pub open spec fn all_sets(m: Keyspace, ks: Seq<Seq<u8>>) -> bool {
    ks.len() > 0 && forall|i: int| 0 <= i < ks.len() ==> holds_set(m, #[trigger] ks[i])
}

/// The members present in every listed set.
pub open spec fn intersection_of(m: Keyspace, ks: Seq<Seq<u8>>) -> Set<Seq<u8>> {
    Set::new(|x: Seq<u8>| forall|i: int| 0 <= i < ks.len() ==> #[trigger] set_at(m, ks[i]).contains(x))
}

/// The members present in any listed set.
pub open spec fn union_of(m: Keyspace, ks: Seq<Seq<u8>>) -> Set<Seq<u8>> {
    Set::new(|x: Seq<u8>| exists|i: int| 0 <= i < ks.len() && #[trigger] set_at(m, ks[i]).contains(x))
}

/// The keyspace after a storage command, and the command's outcome.
pub open spec fn step(m: Keyspace, c: StorageCommandView) -> (Keyspace, Reply) {
    match c {
        StorageCommandView::Put(k, v) => (m.insert(k, v), Ok(None)),
        StorageCommandView::Get(k) => (m, Ok(
            if m.contains_key(k) {
                Some(m[k])
            } else {
                None
            },
        )),
        StorageCommandView::Incr(k) => add_step(m, k, 1),
        StorageCommandView::Decr(k) => add_step(m, k, -1),
        StorageCommandView::SetAdd(k, x) => if !m.contains_key(k) {
            (m.insert(k, ValueView::Members(set![x])), Ok(Some(ValueView::Int(1))))
        } else if holds_set(m, k) {
            let s = set_at(m, k);
            (
                m.insert(k, ValueView::Members(s.insert(x))),
                Ok(Some(ValueView::Int(if s.contains(x) { 0 } else { 1 }))),
            )
        } else {
            (m, Err(StorageError::NotASet))
        },
        StorageCommandView::SetRemove(k, x) => if holds_set(m, k) {
            let s = set_at(m, k);
            (
                m.insert(k, ValueView::Members(s.remove(x))),
                Ok(Some(ValueView::Int(if s.contains(x) { 1 } else { 0 }))),
            )
        } else {
            (m, Err(StorageError::NotASet))
        },
        StorageCommandView::SetMembers(k) => if !m.contains_key(k) {
            (m, Ok(Some(ValueView::Members(Set::empty()))))
        } else if holds_set(m, k) {
            (m, Ok(Some(m[k])))
        } else {
            (m, Err(StorageError::NotASet))
        },
        StorageCommandView::SetIntersection(ks) => if all_sets(m, ks) {
            (m, Ok(Some(ValueView::Members(intersection_of(m, ks)))))
        } else {
            (m, Err(StorageError::NotASet))
        },
        StorageCommandView::SetUnion(ks) => if all_sets(m, ks) {
            (m, Ok(Some(ValueView::Members(union_of(m, ks)))))
        } else {
            (m, Err(StorageError::NotASet))
        },
    }
}

/// The keyspace after applying each command in turn, whatever each outcome.
pub open spec fn replay(m: Keyspace, cs: Seq<StorageCommandView>) -> Keyspace
    decreases cs.len(),
{
    if cs.len() == 0 {
        m
    } else {
        step(replay(m, cs.drop_last()), cs.last()).0
    }
}


/// Whether the command writes the key outright: a store, increment or
/// decrement of it.
pub open spec fn rewrites(c: StorageCommandView, k: Seq<u8>) -> bool {
    match c {
        StorageCommandView::Put(j, _) => j == k,
        StorageCommandView::Incr(j) => j == k,
        StorageCommandView::Decr(j) => j == k,
        _ => false,
    }
}

/// A command that does not rewrite `k` leaves a blob or integer at `k` in
/// place.
pub proof fn lemma_step_keeps_scalar(m: Keyspace, c: StorageCommandView, k: Seq<u8>)
    requires
        m.contains_key(k),
        m[k] is Blob || m[k] is Int,
        !rewrites(c, k),
    ensures
        step(m, c).0.contains_key(k),
        step(m, c).0[k] == m[k],
{
}

/// After `SET k v`, `GET k` returns `v` until the next `SET`, `INCR` or
/// `DECR` of `k`, whatever other commands come in between.
pub proof fn law_get_after_set(
    m: Keyspace,
    k: Seq<u8>,
    v: ValueView,
    later: Seq<StorageCommandView>,
)
    requires
        v is Blob || v is Int,
        forall|i: int| 0 <= i < later.len() ==> !rewrites(#[trigger] later[i], k),
    ensures
        step(replay(step(m, StorageCommandView::Put(k, v)).0, later), StorageCommandView::Get(k)).1
            == Ok::<Option<ValueView>, StorageError>(Some(v)),
{
    let m1 = step(m, StorageCommandView::Put(k, v)).0;
    lemma_replay_keeps_scalar(m1, later, k);
}

/// Commands none of which rewrites `k` leave a blob or integer at `k` in
/// place.
pub proof fn lemma_replay_keeps_scalar(m: Keyspace, cs: Seq<StorageCommandView>, k: Seq<u8>)
    requires
        m.contains_key(k),
        m[k] is Blob || m[k] is Int,
        forall|i: int| 0 <= i < cs.len() ==> !rewrites(#[trigger] cs[i], k),
    ensures
        replay(m, cs).contains_key(k),
        replay(m, cs)[k] == m[k],
    decreases cs.len(),
{
    if cs.len() > 0 {
        let init = cs.drop_last();
        assert forall|i: int| 0 <= i < init.len() implies !rewrites(#[trigger] init[i], k) by {
            assert(init[i] == cs[i]);
        }
        lemma_replay_keeps_scalar(m, init, k);
        assert(!rewrites(cs[cs.len() - 1], k));
        lemma_step_keeps_scalar(replay(m, init), cs.last(), k);
    }
}

/// For a key whose value counts as the integer `n` (0 where it is absent),
/// `INCR k` then `GET k` gives `Int(n + 1)`.
pub proof fn law_incr_then_get(m: Keyspace, k: Seq<u8>)
    requires
        current_integer(m, k) is Some,
        current_integer(m, k)->0 < i64::MAX,
    ensures
        step(step(m, StorageCommandView::Incr(k)).0, StorageCommandView::Get(k)).1 == Ok::<
            Option<ValueView>,
            StorageError,
        >(Some(ValueView::Int((current_integer(m, k)->0 + 1) as i64))),
{
}

/// `INCR` on a key that holds a set fails with `NotAnInteger`.
pub proof fn law_incr_on_set(m: Keyspace, k: Seq<u8>)
    requires
        holds_set(m, k),
    ensures
        step(m, StorageCommandView::Incr(k)).1 == Err::<Option<ValueView>, StorageError>(
            StorageError::NotAnInteger,
        ),
{
}

/// Adding the same member twice: the second `SADD` reports `Int(0)`.
pub proof fn law_sadd_twice(m: Keyspace, k: Seq<u8>, x: Seq<u8>)
    requires
        !m.contains_key(k) || holds_set(m, k),
    ensures
        step(step(m, StorageCommandView::SetAdd(k, x)).0, StorageCommandView::SetAdd(k, x)).1 == Ok::<
            Option<ValueView>,
            StorageError,
        >(Some(ValueView::Int(0))),
{
    let m1 = step(m, StorageCommandView::SetAdd(k, x)).0;
    assert(holds_set(m1, k));
    assert(set_at(m1, k).contains(x));
}

/// `SINTER k k` gives what `SMEMBERS k` gives, for a key that is present.
pub proof fn law_sinter_self(m: Keyspace, k: Seq<u8>)
    requires
        m.contains_key(k),
    ensures
        step(m, StorageCommandView::SetIntersection(seq![k, k])) == step(
            m,
            StorageCommandView::SetMembers(k),
        ),
{
    let ks = seq![k, k];
    if holds_set(m, k) {
        assert(all_sets(m, ks));
        assert(intersection_of(m, ks) =~= set_at(m, k)) by {
            assert forall|x: Seq<u8>| #[trigger] intersection_of(m, ks).contains(x) == set_at(
                m,
                k,
            ).contains(x) by {
                if set_at(m, k).contains(x) {
                    assert forall|i: int| 0 <= i < ks.len() implies #[trigger] set_at(m, ks[i]).contains(
                        x,
                    ) by {
                        assert(ks[i] == k);
                    }
                }
                if intersection_of(m, ks).contains(x) {
                    assert(set_at(m, ks[0]).contains(x));
                }
            }
        }
    } else {
        assert(!holds_set(m, ks[0]));
    }
}

/// `SUNION` of two disjoint sets is their disjoint union, whose size is the
/// sum of their sizes.
pub proof fn law_sunion_disjoint(m: Keyspace, a: Seq<u8>, b: Seq<u8>)
    requires
        holds_set(m, a),
        holds_set(m, b),
        set_at(m, a).finite(),
        set_at(m, b).finite(),
        set_at(m, a).disjoint(set_at(m, b)),
    ensures
        step(m, StorageCommandView::SetUnion(seq![a, b])).1 == Ok::<Option<ValueView>, StorageError>(
            Some(ValueView::Members(set_at(m, a) + set_at(m, b))),
        ),
        (set_at(m, a) + set_at(m, b)).len() == set_at(m, a).len() + set_at(m, b).len(),
{
    let ks = seq![a, b];
    assert(all_sets(m, ks)) by {
        assert forall|i: int| 0 <= i < ks.len() implies holds_set(m, #[trigger] ks[i]) by {
            if i == 0 {
                assert(ks[i] == a);
            } else {
                assert(ks[i] == b);
            }
        }
    }
    assert(union_of(m, ks) =~= set_at(m, a) + set_at(m, b)) by {
        assert forall|x: Seq<u8>| #[trigger] union_of(m, ks).contains(x) == (set_at(m, a)
            + set_at(m, b)).contains(x) by {
            if set_at(m, a).contains(x) {
                assert(set_at(m, ks[0]).contains(x));
            }
            if set_at(m, b).contains(x) {
                assert(set_at(m, ks[1]).contains(x));
            }
            if union_of(m, ks).contains(x) {
                let i = choose|i: int| 0 <= i < ks.len() && #[trigger] set_at(m, ks[i]).contains(x);
                if i == 0 {
                    assert(ks[i] == a);
                } else {
                    assert(ks[i] == b);
                }
            }
        }
    }
    vstd::set_lib::lemma_set_disjoint_lens(set_at(m, a), set_at(m, b));
}


/// The storage engine's state: the keyspace, and whether mutations are
/// to be logged before they are applied (off while the log is replayed).
pub struct InMemoryStorage {
    entries: Vec<(Key, Value)>,
    durable: bool,
}

impl View for InMemoryStorage {
    type V = Keyspace;

    closed spec fn view(&self) -> Keyspace {
        Map::new(
            |k: Seq<u8>| self.key_views().contains(k),
            |k: Seq<u8>| self.entries@[self.key_views().index_of(k)].1@,
        )
    }
}

impl InMemoryStorage {
    /// The keys, in storage order.
    pub closed spec fn key_views(&self) -> Seq<Seq<u8>> {
        self.entries@.map_values(|e: (Key, Value)| e.0@)
    }

    /// Well-formed: each key once, each value well-formed.
    pub closed spec fn wf(&self) -> bool {
        &&& self.key_views().no_duplicates()
        &&& forall|i: int| 0 <= i < self.entries.len() ==> (#[trigger] self.entries@[i]).1.wf()
    }

    /// Whether mutations are logged before they are applied.
    pub closed spec fn is_durable(&self) -> bool {
        self.durable
    }

    /// An empty keyspace, with logging on.
    pub fn new() -> (s: InMemoryStorage)
        ensures
            s.wf(),
            s@ == Keyspace::empty(),
            s.is_durable(),
    {
        let s = InMemoryStorage { entries: Vec::new(), durable: true };
        assert(s.key_views() =~= Seq::<Seq<u8>>::empty());
        assert(s@ =~= Keyspace::empty());
        s
    }

    /// Turns logging of mutations on.
    pub fn enable_durability(&mut self)
        ensures
            final(self)@ == old(self)@,
            final(self).wf() == old(self).wf(),
            final(self).is_durable(),
    {
        self.durable = true;
    }

    /// Turns logging of mutations off.
    pub fn disable_durability(&mut self)
        ensures
            final(self)@ == old(self)@,
            final(self).wf() == old(self).wf(),
            !final(self).is_durable(),
    {
        self.durable = false;
    }

    /// Whether `cmd` is to be handed to the log writer before it is applied:
    /// logging is on and the command mutates.
    pub fn should_record(&self, cmd: &StorageCommand) -> (r: bool)
        ensures
            r == (self.is_durable() && cmd@.is_mutating()),
    {
        self.durable && match cmd {
            StorageCommand::Put(..) | StorageCommand::Incr(_) | StorageCommand::Decr(_)
            | StorageCommand::SetAdd(..) | StorageCommand::SetRemove(..) => true,
            _ => false,
        }
    }

    /// The entry at `i` is what the keyspace holds at its key.
    proof fn lemma_index(&self, i: int)
        requires
            self.wf(),
            0 <= i < self.entries.len(),
        ensures
            self@.contains_key(self.entries@[i].0@),
            self.key_views().index_of(self.entries@[i].0@) == i,
            self@[self.entries@[i].0@] == self.entries@[i].1@,
    {
        let kv = self.key_views();
        assert(kv[i] == self.entries@[i].0@);
        assert(kv.contains(kv[i]));
        let j = kv.index_of(kv[i]);
        assert(kv[j] == kv[i]);
    }

    /// The index of the entry for `k`.
    fn find(&self, k: &Key) -> (r: Option<usize>)
        requires
            self.wf(),
        ensures
            r matches Some(i) ==> i < self.entries.len() && self.entries@[i as int].0@ == k@
                && self@.contains_key(k@) && self@[k@] == self.entries@[i as int].1@,
            r is None ==> !self@.contains_key(k@),
    {
        let mut i: usize = 0;
        while i < self.entries.len()
            invariant
                0 <= i <= self.entries.len(),
                self.wf(),
                forall|j: int| 0 <= j < i ==> self.entries@[j].0@ != k@,
            decreases self.entries.len() - i,
        {
            if self.entries[i].0 == *k {
                proof {
                    self.lemma_index(i as int);
                }
                return Some(i);
            }
            i = i + 1;
        }
        proof {
            if self@.contains_key(k@) {
                let j = self.key_views().index_of(k@);
                assert(self.key_views()[j] == k@);
            }
        }
        None
    }

    /// Changing the value of one entry stores the new value at its key.
    proof fn lemma_update(old: InMemoryStorage, new: InMemoryStorage, i: int)
        requires
            old.wf(),
            0 <= i < old.entries.len(),
            new.entries.len() == old.entries.len(),
            forall|j: int| 0 <= j < old.entries.len() && j != i ==> new.entries@[j] == old.entries@[j],
            new.entries@[i].0@ == old.entries@[i].0@,
            new.entries@[i].1.wf(),
            new.durable == old.durable,
        ensures
            new.wf(),
            new.is_durable() == old.is_durable(),
            new@ == old@.insert(old.entries@[i].0@, new.entries@[i].1@),
    {
        let k = old.entries@[i].0@;
        let vv = new.entries@[i].1@;
        assert(new.key_views() =~= old.key_views()) by {
            assert forall|j: int| 0 <= j < old.entries.len() implies new.key_views()[j] == old.key_views()[j] by {
                if j != i {
                    assert(new.entries@[j] == old.entries@[j]);
                }
            }
        }
        assert forall|j: int| 0 <= j < new.entries.len() implies (#[trigger] new.entries@[j]).1.wf() by {
            if j != i {
                assert(new.entries@[j] == old.entries@[j]);
                assert(old.entries@[j].1.wf());
            }
        }
        old.lemma_index(i);
        assert(new@ =~= old@.insert(k, vv)) by {
            assert forall|x: Seq<u8>| #[trigger] new@.contains_key(x) == old@.insert(k, vv).contains_key(x) by {}
            assert forall|x: Seq<u8>| #[trigger] new@.contains_key(x) implies new@[x] == old@.insert(k, vv)[x] by {
                let j = new.key_views().index_of(x);
                assert(new.key_views()[j] == x);
                if x == k {
                    new.lemma_index(i);
                } else {
                    old.lemma_index(j);
                    new.lemma_index(j);
                    assert(j != i);
                    assert(new.entries@[j] == old.entries@[j]);
                }
            }
        }
    }

    /// Replaces the value of the entry at `i`.
    fn replace_at(&mut self, i: usize, v: Value)
        requires
            old(self).wf(),
            i < old(self).entries.len(),
            v.wf(),
        ensures
            final(self).wf(),
            final(self).is_durable() == old(self).is_durable(),
            final(self)@ == old(self)@.insert(old(self).entries@[i as int].0@, v@),
    {
        let ghost old_self = *self;
        self.entries[i].1 = v;
        proof {
            InMemoryStorage::lemma_update(old_self, *self, i as int);
        }
    }

    /// Adds an entry for a key that has none.
    fn push_entry(&mut self, k: Key, v: Value)
        requires
            old(self).wf(),
            !old(self)@.contains_key(k@),
            v.wf(),
        ensures
            final(self).wf(),
            final(self).is_durable() == old(self).is_durable(),
            final(self)@ == old(self)@.insert(k@, v@),
    {
        let ghost kk = k@;
        let ghost vv = v@;
        let ghost old_self = *self;
        self.entries.push((k, v));
        assert(self.key_views() =~= old_self.key_views().push(kk));
        assert(self@ =~= old_self@.insert(kk, vv)) by {
            assert forall|x: Seq<u8>| #[trigger] self@.contains_key(x) implies self@[x] == old_self@.insert(kk, vv)[x] by {
                let j = self.key_views().index_of(x);
                assert(self.key_views()[j] == x);
                self.lemma_index(j);
                if x != kk {
                    old_self.lemma_index(j);
                }
            }
            assert forall|x: Seq<u8>| #[trigger] old_self@.insert(kk, vv).contains_key(x) implies self@.contains_key(x) by {
                if x == kk {
                    assert(self.key_views()[old_self.entries.len() as int] == x);
                } else {
                    let j = old_self.key_views().index_of(x);
                    assert(self.key_views()[j] == x);
                }
            }
        }
    }

    /// Stores `v` at `k`.
    fn put(&mut self, k: Key, v: Value)
        requires
            old(self).wf(),
            v.wf(),
        ensures
            final(self).wf(),
            final(self).is_durable() == old(self).is_durable(),
            final(self)@ == old(self)@.insert(k@, v@),
    {
        match self.find(&k) {
            Some(i) => self.replace_at(i, v),
            None => self.push_entry(k, v),
        }
    }
}

/// Adds two integers, failing with `Overflow` outside the range of `i64`.
fn safe_add(a: i64, b: i64) -> (r: Result<i64, StorageError>)
    ensures
        r matches Ok(c) ==> in_i64(a + b) && c == a + b,
        r is Err ==> !in_i64(a + b) && r == Err::<i64, StorageError>(StorageError::Overflow),
{
    match a.checked_add(b) {
        Some(c) => Ok(c),
        None => Err(StorageError::Overflow),
    }
}

impl InMemoryStorage {
    /// A copy of the set at `key`.
    fn get_set(&self, key: &Key) -> (r: Result<BlobSet, StorageError>)
        requires
            self.wf(),
        ensures
            r matches Ok(s) ==> holds_set(self@, key@) && s@ == set_at(self@, key@) && s.wf(),
            r is Err ==> !holds_set(self@, key@) && r == Err::<BlobSet, StorageError>(StorageError::NotASet),
    {
        match self.find(key) {
            Some(i) => match &self.entries[i].1 {
                Value::Members(s) => {
                    assert(self.entries@[i as int].1.wf());
                    Ok(s.clone())
                },
                _ => Err(StorageError::NotASet),
            },
            None => Err(StorageError::NotASet),
        }
    }

    /// `INCR` and `DECR`: adds `amount` to the integer at `key`.
    fn handle_add(&mut self, key: Key, amount: i64) -> (r: Result<Option<Value>, StorageError>)
        requires
            old(self).wf(),
            amount == 1 || amount == -1,
        ensures
            final(self).wf(),
            final(self).is_durable() == old(self).is_durable(),
            (final(self)@, reply_view(&r)) == add_step(old(self)@, key@, amount as int),
    {
        let found = self.find(&key);
        let current: i64 = match found {
            None => 0,
            Some(i) => match &self.entries[i].1 {
                Value::Int(v) => *v,
                Value::Blob(b) => match parse_integer_text(b.0.as_slice()) {
                    Some(v) => v,
                    None => {
                        return Err(StorageError::NotAnInteger);
                    },
                },
                _ => {
                    return Err(StorageError::NotAnInteger);
                },
            },
        };
        let n = safe_add(current, amount)?;
        match found {
            Some(i) => self.replace_at(i, Value::Int(n)),
            None => self.push_entry(key, Value::Int(n)),
        }
        Ok(Some(Value::Int(n)))
    }

    /// `SADD`: inserts `member` into the set at `key`, creating it if absent.
    fn handle_set_add(&mut self, key: Key, member: Blob) -> (r: Result<Option<Value>, StorageError>)
        requires
            old(self).wf(),
        ensures
            final(self).wf(),
            final(self).is_durable() == old(self).is_durable(),
            (final(self)@, reply_view(&r)) == step(old(self)@, StorageCommandView::SetAdd(key@, member@)),
    {
        match self.find(&key) {
            None => {
                let mut s = BlobSet::new();
                s.insert(member);
                assert(s@ =~= set![member@]) by {
                    assert(Set::<Seq<u8>>::empty().insert(member@) =~= set![member@]);
                }
                self.push_entry(key, Value::Members(s));
                Ok(Some(Value::Int(1)))
            },
            Some(i) => {
                if !matches!(self.entries[i].1, Value::Members(_)) {
                    return Err(StorageError::NotASet);
                }
                let ghost old_self = *self;
                assert(self.entries@[i as int].1.wf());
                let added = match &mut self.entries[i].1 {
                    Value::Members(s) => s.insert(member),
                    _ => false,
                };
                proof {
                    InMemoryStorage::lemma_update(old_self, *self, i as int);
                }
                Ok(Some(Value::Int(if added { 1 } else { 0 })))
            },
        }
    }

    /// `SREM`: removes `member` from the set at `key`.
    fn handle_set_remove(&mut self, key: Key, member: Blob) -> (r: Result<Option<Value>, StorageError>)
        requires
            old(self).wf(),
        ensures
            final(self).wf(),
            final(self).is_durable() == old(self).is_durable(),
            (final(self)@, reply_view(&r)) == step(old(self)@, StorageCommandView::SetRemove(key@, member@)),
    {
        match self.find(&key) {
            None => Err(StorageError::NotASet),
            Some(i) => {
                if !matches!(self.entries[i].1, Value::Members(_)) {
                    return Err(StorageError::NotASet);
                }
                let ghost old_self = *self;
                assert(self.entries@[i as int].1.wf());
                let removed = match &mut self.entries[i].1 {
                    Value::Members(s) => s.remove(&member),
                    _ => false,
                };
                proof {
                    InMemoryStorage::lemma_update(old_self, *self, i as int);
                }
                Ok(Some(Value::Int(if removed { 1 } else { 0 })))
            },
        }
    }

    /// `SMEMBERS`: a copy of the set at `key`; empty where `key` is absent.
    fn handle_set_members(&self, key: Key) -> (r: Result<Option<Value>, StorageError>)
        requires
            self.wf(),
        ensures
            (self@, reply_view(&r)) == step(self@, StorageCommandView::SetMembers(key@)),
            r matches Ok(Some(v)) ==> v.wf(),
    {
        match self.find(&key) {
            None => Ok(Some(Value::Members(BlobSet::new()))),
            Some(_) => {
                let s = self.get_set(&key)?;
                Ok(Some(Value::Members(s)))
            },
        }
    }

    /// `SINTER`: the members present in every listed set.
    fn handle_set_intersection(&self, keys: Vec<Key>) -> (r: Result<Option<Value>, StorageError>)
        requires
            self.wf(),
        ensures
            (self@, reply_view(&r)) == step(self@, StorageCommandView::SetIntersection(blob_views(keys@))),
            r matches Ok(Some(v)) ==> v.wf(),
    {
        let ghost m = self@;
        let ghost ks = blob_views(keys@);
        if keys.len() == 0 {
            return Err(StorageError::NotASet);
        }
        let mut result = match self.get_set(&keys[0]) {
            Ok(s) => s,
            Err(e) => {
                assert(!holds_set(m, ks[0]));
                return Err(e);
            },
        };
        assert(intersection_of(m, ks.take(1)) =~= result@) by {
            assert forall|x: Seq<u8>| #[trigger] intersection_of(m, ks.take(1)).contains(x) == result@.contains(x) by {
                if result@.contains(x) {
                    assert forall|j: int| 0 <= j < ks.take(1).len() implies #[trigger] set_at(m, ks.take(1)[j]).contains(x) by {
                        assert(ks.take(1)[j] == ks[0]);
                    }
                }
                if intersection_of(m, ks.take(1)).contains(x) {
                    assert(set_at(m, ks.take(1)[0]).contains(x));
                }
            }
        }
        let mut i: usize = 1;
        while i < keys.len()
            invariant
                1 <= i <= keys.len(),
                self.wf(),
                m == self@,
                ks == blob_views(keys@),
                result.wf(),
                result@ == intersection_of(m, ks.take(i as int)),
                forall|j: int| 0 <= j < i ==> holds_set(m, #[trigger] ks[j]),
            decreases keys.len() - i,
        {
            let s = match self.get_set(&keys[i]) {
                Ok(s) => s,
                Err(e) => {
                    assert(!holds_set(m, ks[i as int]));
                    return Err(e);
                },
            };
            let ghost before = result@;
            result = result.intersection(&s);
            assert(intersection_of(m, ks.take(i + 1)) =~= before.intersect(s@)) by {
                assert forall|x: Seq<u8>| #[trigger] intersection_of(m, ks.take(i + 1)).contains(x) == before.intersect(s@).contains(x) by {
                    if before.intersect(s@).contains(x) {
                        assert forall|j: int| 0 <= j < ks.take(i + 1).len() implies #[trigger] set_at(m, ks.take(i + 1)[j]).contains(x) by {
                            if j < i {
                                assert(ks.take(i + 1)[j] == ks.take(i as int)[j]);
                                assert(set_at(m, ks.take(i as int)[j]).contains(x));
                            } else {
                                assert(ks.take(i + 1)[j] == ks[i as int]);
                            }
                        }
                    }
                    if intersection_of(m, ks.take(i + 1)).contains(x) {
                        assert forall|j: int| 0 <= j < ks.take(i as int).len() implies #[trigger] set_at(m, ks.take(i as int)[j]).contains(x) by {
                            assert(ks.take(i + 1)[j] == ks.take(i as int)[j]);
                            assert(set_at(m, ks.take(i + 1)[j]).contains(x));
                        }
                        assert(set_at(m, ks.take(i + 1)[i as int]).contains(x));
                    }
                }
            }
            i = i + 1;
        }
        assert(ks.take(i as int) =~= ks);
        Ok(Some(Value::Members(result)))
    }

    /// `SUNION`: the members present in any listed set.
    fn handle_set_union(&self, keys: Vec<Key>) -> (r: Result<Option<Value>, StorageError>)
        requires
            self.wf(),
        ensures
            (self@, reply_view(&r)) == step(self@, StorageCommandView::SetUnion(blob_views(keys@))),
            r matches Ok(Some(v)) ==> v.wf(),
    {
        let ghost m = self@;
        let ghost ks = blob_views(keys@);
        if keys.len() == 0 {
            return Err(StorageError::NotASet);
        }
        let mut result = match self.get_set(&keys[0]) {
            Ok(s) => s,
            Err(e) => {
                assert(!holds_set(m, ks[0]));
                return Err(e);
            },
        };
        assert(union_of(m, ks.take(1)) =~= result@) by {
            assert forall|x: Seq<u8>| #[trigger] union_of(m, ks.take(1)).contains(x) == result@.contains(x) by {
                if result@.contains(x) {
                    assert(set_at(m, ks.take(1)[0]).contains(x));
                }
                if union_of(m, ks.take(1)).contains(x) {
                    let j = choose|j: int| 0 <= j < ks.take(1).len() && #[trigger] set_at(m, ks.take(1)[j]).contains(x);
                    assert(ks.take(1)[j] == ks[0]);
                }
            }
        }
        let mut i: usize = 1;
        while i < keys.len()
            invariant
                1 <= i <= keys.len(),
                self.wf(),
                m == self@,
                ks == blob_views(keys@),
                result.wf(),
                result@ == union_of(m, ks.take(i as int)),
                forall|j: int| 0 <= j < i ==> holds_set(m, #[trigger] ks[j]),
            decreases keys.len() - i,
        {
            let s = match self.get_set(&keys[i]) {
                Ok(s) => s,
                Err(e) => {
                    assert(!holds_set(m, ks[i as int]));
                    return Err(e);
                },
            };
            let ghost before = result@;
            result = result.union(&s);
            assert(union_of(m, ks.take(i + 1)) =~= before.union(s@)) by {
                assert forall|x: Seq<u8>| #[trigger] union_of(m, ks.take(i + 1)).contains(x) == before.union(s@).contains(x) by {
                    if before.contains(x) {
                        let j = choose|j: int| 0 <= j < ks.take(i as int).len() && #[trigger] set_at(m, ks.take(i as int)[j]).contains(x);
                        assert(ks.take(i + 1)[j] == ks.take(i as int)[j]);
                        assert(set_at(m, ks.take(i + 1)[j]).contains(x));
                    }
                    if s@.contains(x) {
                        assert(ks.take(i + 1)[i as int] == ks[i as int]);
                        assert(set_at(m, ks.take(i + 1)[i as int]).contains(x));
                    }
                    if union_of(m, ks.take(i + 1)).contains(x) {
                        let j = choose|j: int| 0 <= j < ks.take(i + 1).len() && #[trigger] set_at(m, ks.take(i + 1)[j]).contains(x);
                        if j < i {
                            assert(ks.take(i + 1)[j] == ks.take(i as int)[j]);
                            assert(set_at(m, ks.take(i as int)[j]).contains(x));
                        } else {
                            assert(ks.take(i + 1)[j] == ks[i as int]);
                        }
                    }
                }
            }
            i = i + 1;
        }
        assert(ks.take(i as int) =~= ks);
        Ok(Some(Value::Members(result)))
    }

    /// Applies one storage command: the keyspace changes and the outcome is
    /// as `step` says.
    pub fn handle_cmd(&mut self, cmd: StorageCommand) -> (r: Result<Option<Value>, StorageError>)
        requires
            old(self).wf(),
            cmd.wf(),
        ensures
            final(self).wf(),
            final(self).is_durable() == old(self).is_durable(),
            (final(self)@, reply_view(&r)) == step(old(self)@, cmd@),
            r matches Ok(Some(v)) ==> v.wf(),
    {
        match cmd {
            StorageCommand::Put(key, value) => {
                self.put(key, value);
                Ok(None)
            },
            StorageCommand::Get(key) => match self.find(&key) {
                Some(i) => {
                    assert(self.entries@[i as int].1.wf());
                    Ok(Some(self.entries[i].1.clone()))
                },
                None => Ok(None),
            },
            StorageCommand::Incr(key) => self.handle_add(key, 1),
            StorageCommand::Decr(key) => self.handle_add(key, -1),
            StorageCommand::SetAdd(key, member) => self.handle_set_add(key, member),
            StorageCommand::SetRemove(key, member) => self.handle_set_remove(key, member),
            StorageCommand::SetMembers(key) => self.handle_set_members(key),
            StorageCommand::SetIntersection(keys) => self.handle_set_intersection(keys),
            StorageCommand::SetUnion(keys) => self.handle_set_union(keys),
        }
    }

    /// Replays logged commands in order with logging off, whatever each
    /// outcome, then turns logging on. Returns how many were applied.
    pub fn load_from_log(&mut self, cmds: Vec<StorageCommand>) -> (count: usize)
        requires
            old(self).wf(),
            forall|i: int| 0 <= i < cmds.len() ==> (#[trigger] cmds@[i]).wf(),
        ensures
            final(self).wf(),
            final(self).is_durable(),
            final(self)@ == replay(old(self)@, cmds@.map_values(|c: StorageCommand| c@)),
            count == cmds.len(),
    {
        let ghost views = cmds@.map_values(|c: StorageCommand| c@);
        let ghost start = self@;
        self.disable_durability();
        let mut count: usize = 0;
        let ghost all = cmds@;
        let mut pending = cmds;
        let mut rest: Vec<StorageCommand> = Vec::new();
        while pending.len() > 0
            invariant
                pending@ == all.take(pending.len() as int),
                pending.len() + rest.len() == all.len(),
                forall|i: int| 0 <= i < rest.len() ==> #[trigger] rest@[i] == all[all.len() - 1 - i],
            decreases pending.len(),
        {
            let c = pending.pop().unwrap();
            rest.push(c);
            assert(pending@ =~= all.take(pending.len() as int));
        }
        while rest.len() > 0
            invariant
                self.wf(),
                count + rest.len() == views.len(),
                self@ == replay(start, views.take(count as int)),
                views == all.map_values(|c: StorageCommand| c@),
                all.len() <= usize::MAX,
                forall|i: int| 0 <= i < all.len() ==> (#[trigger] all[i]).wf(),
                forall|i: int| 0 <= i < rest.len() ==> #[trigger] rest@[i] == all[all.len() - 1 - i],
            decreases rest.len(),
        {
            let cmd = rest.pop().unwrap();
            assert(cmd == all[count as int]);
            let _ = self.handle_cmd(cmd);
            assert(views.take(count + 1).drop_last() =~= views.take(count as int));
            count = count + 1;
        }
        assert(views.take(count as int) =~= views);
        self.enable_durability();
        count
    }
}

} // verus!
