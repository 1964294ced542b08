//! Keys and stored values.
use vstd::prelude::*;

use crate::text::{decode_lossy, lossy_text};

verus! {

/// An opaque byte string: the representation of keys and string values.
/// Equality is over the raw bytes.
#[derive(Debug, Eq, Hash)]
pub struct Blob(pub Vec<u8>);

/// Keys are blobs.
pub type Key = Blob;

impl View for Blob {
    type V = Seq<u8>;

    open spec fn view(&self) -> Seq<u8> {
        self.0@
    }
}

impl Blob {
    /// The bytes as text, decoded lossily: how a blob reads in messages.
    pub fn to_text(&self) -> (r: String)
        ensures
            r@ == lossy_text(self@),
    {
        decode_lossy(self.0.as_slice())
    }
}

impl Clone for Blob {
    fn clone(&self) -> (r: Self)
        ensures
            r@ == self@,
    {
        let bytes = self.0.clone();
        assert(bytes@ =~= self.0@);
        Blob(bytes)
    }
}

impl PartialEq for Blob {
    fn eq(&self, other: &Blob) -> (r: bool) {
        bytes_equal(self.0.as_slice(), other.0.as_slice())
    }
}

impl vstd::std_specs::cmp::PartialEqSpecImpl for Blob {
    open spec fn obeys_eq_spec() -> bool {
        true
    }

    open spec fn eq_spec(&self, other: &Blob) -> bool {
        self@ == other@
    }
}

impl From<Vec<u8>> for Blob {
    fn from(t: Vec<u8>) -> (r: Blob) {
        Blob(t)
    }
}

impl vstd::std_specs::convert::FromSpecImpl<Vec<u8>> for Blob {
    open spec fn obeys_from_spec() -> bool {
        true
    }

    open spec fn from_spec(v: Vec<u8>) -> Blob {
        Blob(v)
    }
}

/// Compares two byte strings element by element.
pub fn bytes_equal(a: &[u8], b: &[u8]) -> (r: bool)
    ensures
        r == (a@ == b@),
{
    if a.len() != b.len() {
        return false;
    }
    let mut i: usize = 0;
    while i < a.len()
        invariant
            a.len() == b.len(),
            0 <= i <= a.len(),
            a@.take(i as int) == b@.take(i as int),
        decreases a.len() - i,
    {
        if a[i] != b[i] {
            assert(a@[i as int] != b@[i as int]);
            return false;
        }
        assert(a@.take(i + 1) =~= a@.take(i as int).push(a@[i as int]));
        assert(b@.take(i + 1) =~= b@.take(i as int).push(b@[i as int]));
        i = i + 1;
    }
    assert(a@ =~= a@.take(i as int));
    assert(b@ =~= b@.take(i as int));
    true
}


/// The view of each member of a sequence of blobs.
pub open spec fn blob_views(s: Seq<Blob>) -> Seq<Seq<u8>> {
    s.map_values(|b: Blob| b@)
}

/// Pushing onto a sequence inserts into its set of elements.
pub proof fn lemma_push_to_set<A>(s: Seq<A>, x: A)
    ensures
        s.push(x).to_set() == s.to_set().insert(x),
{
    assert forall|y: A| #[trigger] s.push(x).to_set().contains(y) <==> s.to_set().insert(x).contains(y) by {
        if s.contains(y) {
            let k = s.index_of(y);
            assert(s.push(x)[k] == y);
        }
        if y == x {
            assert(s.push(x)[s.len() as int] == y);
        }
        if s.push(x).contains(y) && y != x {
            let k = s.push(x).index_of(y);
            assert(s[k] == y);
        }
    }
    assert(s.push(x).to_set() =~= s.to_set().insert(x));
}

/// An unordered collection of distinct blobs.
#[derive(Debug, Eq)]
pub struct BlobSet {
    members: Vec<Blob>,
}

impl BlobSet {
    /// The members' bytes, in storage order.
    pub closed spec fn member_views(&self) -> Seq<Seq<u8>> {
        blob_views(self.members@)
    }

    /// Well-formed: no blob occurs twice.
    pub closed spec fn wf(&self) -> bool {
        self.member_views().no_duplicates()
    }

    /// The empty set.
    pub fn new() -> (s: BlobSet)
        ensures
            s.wf(),
            s@ == Set::<Seq<u8>>::empty(),
    {
        let s = BlobSet { members: Vec::new() };
        assert(s.member_views() =~= Seq::<Seq<u8>>::empty());
        assert(s@ =~= Set::<Seq<u8>>::empty());
        s
    }

    /// Index of the member equal to `b`, if there is one.
    fn position(&self, b: &Blob) -> (r: Option<usize>)
        ensures
            r matches Some(i) ==> i < self.members.len() && self.members@[i as int]@ == b@,
            r is None ==> !self@.contains(b@),
    {
        let mut i: usize = 0;
        while i < self.members.len()
            invariant
                0 <= i <= self.members.len(),
                forall|j: int| 0 <= j < i ==> self.members@[j]@ != b@,
            decreases self.members.len() - i,
        {
            if self.members[i] == *b {
                return Some(i);
            }
            i = i + 1;
        }
        proof {
            if self@.contains(b@) {
                let j = self.member_views().index_of(b@);
                assert(self.member_views()[j] == b@);
            }
        }
        None
    }

    /// Whether `b` is a member.
    pub fn contains(&self, b: &Blob) -> (r: bool)
        ensures
            r == self@.contains(b@),
    {
        match self.position(b) {
            Some(i) => {
                assert(self.member_views()[i as int] == b@);
                true
            },
            None => false,
        }
    }

    /// The number of members.
    pub fn len(&self) -> (r: usize)
        requires
            self.wf(),
        ensures
            r == self@.len(),
    {
        proof {
            self.member_views().unique_seq_to_set();
        }
        self.members.len()
    }

    /// Adds `b`; says whether it was absent before.
    pub fn insert(&mut self, b: Blob) -> (added: bool)
        requires
            old(self).wf(),
        ensures
            final(self).wf(),
            final(self)@ == old(self)@.insert(b@),
            added == !old(self)@.contains(b@),
    {
        if self.contains(&b) {
            proof {
                assert(self@.insert(b@) =~= self@);
            }
            return false;
        }
        let ghost old_views = self.member_views();
        let ghost bv = b@;
        self.members.push(b);
        assert(self.member_views() =~= old_views.push(bv));
        proof {
            lemma_push_to_set(old_views, bv);
        }
        true
    }

    /// Removes `b`; says whether it was present before.
    pub fn remove(&mut self, b: &Blob) -> (removed: bool)
        requires
            old(self).wf(),
        ensures
            final(self).wf(),
            final(self)@ == old(self)@.remove(b@),
            removed == old(self)@.contains(b@),
    {
        match self.position(b) {
            None => {
                assert(self@.remove(b@) =~= self@);
                false
            },
            Some(i) => {
                let ghost old_views = self.member_views();
                assert(old_views[i as int] == b@);
                let _ = self.members.remove(i);
                assert(self.member_views() =~= old_views.remove(i as int));
                assert(self@ =~= old_views.to_set().remove(b@)) by {
                    assert forall|x: Seq<u8>| self@.contains(x) <==> (old_views.to_set().contains(x) && x != b@) by {
                        if old_views.contains(x) && x != b@ {
                            let k = old_views.index_of(x);
                            assert(k != i);
                            if k < i {
                                assert(self.member_views()[k] == x);
                            } else {
                                assert(self.member_views()[k - 1] == x);
                            }
                        }
                        if self.member_views().contains(x) {
                            let k = self.member_views().index_of(x);
                            if k < i {
                                assert(old_views[k] == x);
                            } else {
                                assert(old_views[k + 1] == x);
                            }
                        }
                    }
                }
                true
            },
        }
    }

    /// The members, each once, in unspecified order.
    pub fn to_vec(&self) -> (r: Vec<Blob>)
        requires
            self.wf(),
        ensures
            blob_views(r@).to_set() == self@,
            blob_views(r@).no_duplicates(),
            r.len() == self@.len(),
    {
        proof {
            self.member_views().unique_seq_to_set();
        }
        let r = self.members.clone();
        assert(blob_views(r@) =~= self.member_views());
        r
    }

    /// The members that are also in `other`.
    pub fn intersection(&self, other: &BlobSet) -> (r: BlobSet)
        requires
            self.wf(),
            other.wf(),
        ensures
            r.wf(),
            r@ == self@.intersect(other@),
    {
        let mut r = BlobSet::new();
        let mut i: usize = 0;
        while i < self.members.len()
            invariant
                0 <= i <= self.members.len(),
                r.wf(),
                other.wf(),
                r@ == self.member_views().take(i as int).to_set().intersect(other@),
            decreases self.members.len() - i,
        {
            let ghost before = r@;
            if other.contains(&self.members[i]) {
                r.insert(self.members[i].clone());
            }
            assert(self.member_views().take(i + 1) =~= self.member_views().take(i as int).push(self.members@[i as int]@));
            proof {
                lemma_push_to_set(self.member_views().take(i as int), self.members@[i as int]@);
            }
            assert(r@ =~= self.member_views().take(i + 1).to_set().intersect(other@));
            i = i + 1;
        }
        assert(self.member_views().take(i as int) =~= self.member_views());
        r
    }

    /// The members of either set.
    pub fn union(&self, other: &BlobSet) -> (r: BlobSet)
        requires
            self.wf(),
            other.wf(),
        ensures
            r.wf(),
            r@ == self@.union(other@),
    {
        let mut r = self.clone();
        let mut i: usize = 0;
        while i < other.members.len()
            invariant
                0 <= i <= other.members.len(),
                r.wf(),
                other.wf(),
                r@ == self@.union(other.member_views().take(i as int).to_set()),
            decreases other.members.len() - i,
        {
            r.insert(other.members[i].clone());
            assert(other.member_views().take(i + 1) =~= other.member_views().take(i as int).push(other.members@[i as int]@));
            proof {
                lemma_push_to_set(other.member_views().take(i as int), other.members@[i as int]@);
            }
            assert(r@ =~= self@.union(other.member_views().take(i + 1).to_set()));
            i = i + 1;
        }
        assert(other.member_views().take(i as int) =~= other.member_views());
        r
    }
}

impl View for BlobSet {
    type V = Set<Seq<u8>>;

    closed spec fn view(&self) -> Set<Seq<u8>> {
        self.member_views().to_set()
    }
}

impl Clone for BlobSet {
    fn clone(&self) -> (r: Self)
        ensures
            r@ == self@,
            self.wf() ==> r.wf(),
    {
        proof {
        }
        let members = self.members.clone();
        assert(blob_views(members@) =~= self.member_views());
        BlobSet { members }
    }
}

impl BlobSet {
    /// Whether every member of `self` is a member of `other`.
    pub fn is_subset(&self, other: &BlobSet) -> (r: bool)
        ensures
            r == self@.subset_of(other@),
    {
        let mut i: usize = 0;
        while i < self.members.len()
            invariant
                0 <= i <= self.members.len(),
                self.member_views().take(i as int).to_set().subset_of(other@),
            decreases self.members.len() - i,
        {
            if !other.contains(&self.members[i]) {
                assert(self@.contains(self.member_views()[i as int]));
                return false;
            }
            proof {
                lemma_push_to_set(self.member_views().take(i as int), self.members@[i as int]@);
            }
            assert(self.member_views().take(i + 1) =~= self.member_views().take(i as int).push(self.members@[i as int]@));
            i = i + 1;
        }
        assert(self.member_views().take(i as int) =~= self.member_views());
        true
    }
}

impl PartialEq for BlobSet {
    fn eq(&self, other: &BlobSet) -> (r: bool) {
        let r = self.is_subset(other) && other.is_subset(self);
        proof {
            if r {
                assert(self@ =~= other@);
            }
        }
        r
    }
}

impl vstd::std_specs::cmp::PartialEqSpecImpl for BlobSet {
    open spec fn obeys_eq_spec() -> bool {
        true
    }

    open spec fn eq_spec(&self, other: &BlobSet) -> bool {
        self@ == other@
    }
}


/// A mapping from blobs to blobs, one entry per key. No command of the
/// store fills one; the shape is reserved.
#[derive(Debug, PartialEq, Eq)]
pub struct BlobMap {
    entries: Vec<(Blob, Blob)>,
}

impl BlobMap {
    /// The entries' keys, in storage order.
    pub closed spec fn key_views(&self) -> Seq<Seq<u8>> {
        self.entries@.map_values(|e: (Blob, Blob)| e.0@)
    }

    /// Well-formed: no key occurs twice.
    pub closed spec fn wf(&self) -> bool {
        self.key_views().no_duplicates()
    }

    /// The empty mapping.
    pub fn new() -> (m: BlobMap)
        ensures
            m.wf(),
            m@ == Map::<Seq<u8>, Seq<u8>>::empty(),
    {
        let m = BlobMap { entries: Vec::new() };
        assert(m.key_views() =~= Seq::<Seq<u8>>::empty());
        assert(m@ =~= Map::<Seq<u8>, Seq<u8>>::empty());
        m
    }
}

impl View for BlobMap {
    type V = Map<Seq<u8>, Seq<u8>>;

    closed spec fn view(&self) -> Map<Seq<u8>, Seq<u8>> {
        Map::new(
            |k: Seq<u8>| self.key_views().contains(k),
            |k: Seq<u8>| self.entries@[self.key_views().index_of(k)].1@,
        )
    }
}

impl Clone for BlobMap {
    fn clone(&self) -> (r: Self)
        ensures
            r@ == self@,
            self.wf() ==> r.wf(),
    {
        let mut entries: Vec<(Blob, Blob)> = Vec::new();
        let mut i: usize = 0;
        while i < self.entries.len()
            invariant
                0 <= i <= self.entries.len(),
                entries.len() == i,
                forall|j: int| 0 <= j < i ==> #[trigger] entries@[j].0@ == self.entries@[j].0@
                    && entries@[j].1@ == self.entries@[j].1@,
            decreases self.entries.len() - i,
        {
            let k = self.entries[i].0.clone();
            let v = self.entries[i].1.clone();
            entries.push((k, v));
            i = i + 1;
        }
        let r = BlobMap { entries };
        assert(r.key_views() =~= self.key_views());
        assert(r@ =~= self@);
        r
    }
}

/// What a key can hold.
#[derive(Debug, PartialEq, Eq)]
pub enum Value {
    Blob(Blob),
    Int(i64),
    Members(BlobSet),
    Hash(BlobMap),
}

/// The mathematical content of a [`Value`].
pub enum ValueView {
    Blob(Seq<u8>),
    Int(i64),
    Members(Set<Seq<u8>>),
    Hash(Map<Seq<u8>, Seq<u8>>),
}

impl View for Value {
    type V = ValueView;

    open spec fn view(&self) -> ValueView {
        match self {
            Value::Blob(b) => ValueView::Blob(b@),
            Value::Int(i) => ValueView::Int(*i),
            Value::Members(s) => ValueView::Members(s@),
            Value::Hash(h) => ValueView::Hash(h@),
        }
    }
}

impl Value {
    /// Well-formed: a set or mapping inside is well-formed.
    pub open spec fn wf(&self) -> bool {
        match self {
            Value::Members(s) => s.wf(),
            Value::Hash(h) => h.wf(),
            _ => true,
        }
    }
}

impl Clone for Value {
    fn clone(&self) -> (r: Self)
        ensures
            r@ == self@,
            self.wf() ==> r.wf(),
    {
        match self {
            Value::Blob(b) => Value::Blob(b.clone()),
            Value::Int(i) => Value::Int(*i),
            Value::Members(s) => Value::Members(s.clone()),
            Value::Hash(h) => Value::Hash(h.clone()),
        }
    }
}

impl From<Vec<u8>> for Value {
    fn from(t: Vec<u8>) -> (r: Value) {
        Value::Blob(Blob(t))
    }
}

impl vstd::std_specs::convert::FromSpecImpl<Vec<u8>> for Value {
    open spec fn obeys_from_spec() -> bool {
        true
    }

    open spec fn from_spec(v: Vec<u8>) -> Value {
        Value::Blob(Blob(v))
    }
}

} // verus!
