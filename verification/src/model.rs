//! The document model: scalar values, items, groups, nested blocks, and the
//! ordered key/value maps that hold them.
//!
//! Maps are association lists with unique keys; redeclaration overwrites the
//! bound value in place (last write wins), and the order of first insertion
//! is kept, so serialization is deterministic.

use vstd::prelude::*;

verus! {

// ---------------------------------------------------------------------------
// Association-list semantics at the specification level.
// ---------------------------------------------------------------------------

/// Index of the first entry with key `k`, or `-1` if there is none.
pub open spec fn find_key<T>(s: Seq<(Seq<char>, T)>, k: Seq<char>) -> int
    decreases s.len(),
{
    if s.len() == 0 {
        -1
    } else if s[0].0 == k {
        0
    } else {
        let r = find_key(s.skip(1), k);
        if r < 0 {
            -1
        } else {
            r + 1
        }
    }
}

/// Whether some entry binds key `k`.
pub open spec fn has_key<T>(s: Seq<(Seq<char>, T)>, k: Seq<char>) -> bool {
    find_key(s, k) >= 0
}

/// The value bound to key `k`, if any.
pub open spec fn lookup<T>(s: Seq<(Seq<char>, T)>, k: Seq<char>) -> Option<T> {
    if has_key(s, k) {
        Some(s[find_key(s, k)].1)
    } else {
        None
    }
}

/// Binding `k` to `v`: overwrite in place if `k` is bound, append otherwise.
pub open spec fn upsert<T>(s: Seq<(Seq<char>, T)>, k: Seq<char>, v: T) -> Seq<(Seq<char>, T)> {
    if has_key(s, k) {
        s.update(find_key(s, k), (k, v))
    } else {
        s.push((k, v))
    }
}

/// No two entries bind the same key.
pub open spec fn unique_keys<T>(s: Seq<(Seq<char>, T)>) -> bool {
    forall|i: int, j: int| 0 <= i < j < s.len() ==> s[i].0 != s[j].0
}

/// `find_key` finds the first entry with key `k`, and only that.
pub proof fn lemma_find_key<T>(s: Seq<(Seq<char>, T)>, k: Seq<char>)
    ensures
        -1 <= find_key(s, k) < s.len(),
        find_key(s, k) >= 0 ==> s[find_key(s, k)].0 == k,
        find_key(s, k) >= 0 ==> forall|j: int| 0 <= j < find_key(s, k) ==> s[j].0 != k,
        find_key(s, k) == -1 ==> forall|j: int| 0 <= j < s.len() ==> s[j].0 != k,
    decreases s.len(),
{
    if s.len() == 0 {
    } else if s[0].0 == k {
    } else {
        let t = s.skip(1);
        lemma_find_key(t, k);
        let r = find_key(t, k);
        if r >= 0 {
            assert(t[r] == s[r + 1]);
            assert forall|j: int| 0 <= j < find_key(s, k) implies s[j].0 != k by {
                if j > 0 {
                    assert(t[j - 1] == s[j]);
                    assert(t[j - 1].0 != k);
                }
            }
        } else {
            assert forall|j: int| 0 <= j < s.len() implies s[j].0 != k by {
                if j > 0 {
                    assert(t[j - 1] == s[j]);
                    assert(t[j - 1].0 != k);
                }
            }
        }
    }
}

/// The exact index of `k`'s entry, from a witness that `i` is the first match.
pub proof fn lemma_find_key_at<T>(s: Seq<(Seq<char>, T)>, k: Seq<char>, i: int)
    requires
        0 <= i < s.len(),
        s[i].0 == k,
        forall|j: int| 0 <= j < i ==> s[j].0 != k,
    ensures
        find_key(s, k) == i,
{
    lemma_find_key(s, k);
    if find_key(s, k) < i {
        assert(s[find_key(s, k)].0 != k);
    }
    if find_key(s, k) > i {
        assert(s[i].0 != k);
    }
}

/// `upsert` keeps keys unique and binds exactly `k`, leaving other keys as
/// they were.
pub proof fn lemma_upsert<T>(s: Seq<(Seq<char>, T)>, k: Seq<char>, v: T)
    requires
        unique_keys(s),
    ensures
        unique_keys(upsert(s, k, v)),
        lookup(upsert(s, k, v), k) == Some(v),
        forall|k2: Seq<char>| k2 != k ==> #[trigger] lookup(upsert(s, k, v), k2) == lookup(s, k2),
{
    lemma_find_key(s, k);
    let s2 = upsert(s, k, v);
    if has_key(s, k) {
        let i = find_key(s, k);
        assert(unique_keys(s2)) by {
            assert forall|a: int, b: int| 0 <= a < b < s2.len() implies s2[a].0 != s2[b].0 by {
                assert(s[a].0 != s[b].0);
            }
        }
        lemma_find_key_at(s2, k, i);
        assert forall|k2: Seq<char>| k2 != k implies #[trigger] lookup(s2, k2) == lookup(s, k2) by {
            lemma_find_key(s, k2);
            lemma_find_key(s2, k2);
            if find_key(s, k2) >= 0 {
                lemma_find_key_at(s2, k2, find_key(s, k2));
            } else {
                if find_key(s2, k2) >= 0 {
                    assert(s[find_key(s2, k2)].0 == k2);
                }
            }
        }
    } else {
        assert(unique_keys(s2)) by {
            assert forall|a: int, b: int| 0 <= a < b < s2.len() implies s2[a].0 != s2[b].0 by {
                lemma_find_key(s, k);
                if b < s.len() {
                    assert(s[a].0 != s[b].0);
                } else {
                    assert(s[a].0 != k);
                }
            }
        }
        lemma_find_key_at(s2, k, s.len() as int);
        assert forall|k2: Seq<char>| k2 != k implies #[trigger] lookup(s2, k2) == lookup(s, k2) by {
            lemma_find_key(s, k2);
            lemma_find_key(s2, k2);
            if find_key(s, k2) >= 0 {
                lemma_find_key_at(s2, k2, find_key(s, k2));
            } else {
                if find_key(s2, k2) >= 0 {
                    if find_key(s2, k2) < s.len() {
                        assert(s[find_key(s2, k2)].0 == k2);
                    }
                }
            }
        }
    }
}

// ---------------------------------------------------------------------------
// The executable map.
// ---------------------------------------------------------------------------

/// An ordered map from identifier to `V`: an association list with unique
/// keys.  Redeclaration overwrites in place; first-insertion order is kept.
#[derive(Debug, PartialEq, Eq)]
pub struct KvMap<V> {
    entries: Vec<(String, V)>,
}

impl<V: DeepView> DeepView for KvMap<V> {
    type V = Seq<(Seq<char>, <V as DeepView>::V)>;

    closed spec fn deep_view(&self) -> Self::V {
        self.entries.deep_view()
    }
}

impl<V: DeepView> KvMap<V> {
    /// Keys are unique: the structural invariant every operation keeps.
    pub open spec fn wf(&self) -> bool {
        unique_keys(self.deep_view())
    }

    /// The empty map.
    pub fn new() -> (r: Self)
        ensures
            r.deep_view() == Seq::<(Seq<char>, <V as DeepView>::V)>::empty(),
            r.wf(),
    {
        let r = KvMap { entries: Vec::new() };
        proof {
            assert(r.deep_view() =~= Seq::<(Seq<char>, <V as DeepView>::V)>::empty());
        }
        r
    }

    /// How many keys are bound.
    pub fn len(&self) -> (n: usize)
        ensures
            n == self.deep_view().len(),
    {
        self.entries.len()
    }

    /// The key of the entry at position `i`.
    pub fn key_at(&self, i: usize) -> (k: &String)
        requires
            i < self.deep_view().len(),
        ensures
            k@ == self.deep_view()[i as int].0,
    {
        &self.entries[i].0
    }

    /// The value of the entry at position `i`.
    pub fn val_at(&self, i: usize) -> (v: &V)
        requires
            i < self.deep_view().len(),
        ensures
            v.deep_view() == self.deep_view()[i as int].1,
    {
        &self.entries[i].1
    }

    /// The value bound to `k`, if any.
    pub fn get(&self, k: &String) -> (r: Option<&V>)
        ensures
            match r {
                Some(v) => lookup(self.deep_view(), k@) == Some(v.deep_view()),
                None => lookup(self.deep_view(), k@) is None,
            },
    {
        let ghost s = self.deep_view();
        let n = self.entries.len();
        for i in 0..n
            invariant
                n == s.len(),
                s == self.deep_view(),
                forall|j: int| 0 <= j < i ==> s[j].0 != k@,
        {
            if self.entries[i].0 == *k {
                proof {
                    lemma_find_key_at(s, k@, i as int);
                }
                return Some(&self.entries[i].1);
            }
        }
        proof {
            lemma_find_key(s, k@);
        }
        None
    }

    /// Whether `k` is bound.
    pub fn contains_key(&self, k: &String) -> (r: bool)
        ensures
            r == has_key(self.deep_view(), k@),
    {
        proof {
            lemma_find_key(self.deep_view(), k@);
        }
        match self.get(k) {
            Some(_) => true,
            None => false,
        }
    }

    /// Bind `k` to `v`: overwrite in place if present, append otherwise.
    pub fn insert(&mut self, k: String, v: V)
        ensures
            final(self).deep_view() == upsert(old(self).deep_view(), k@, v.deep_view()),
            old(self).wf() ==> final(self).wf(),
    {
        let ghost s = self.deep_view();
        let ghost kk = k@;
        let ghost vv = v.deep_view();
        let n = self.entries.len();
        proof {
            if unique_keys(s) {
                lemma_upsert(s, kk, vv);
            }
        }
        for i in 0..n
            invariant
                n == s.len(),
                s == old(self).deep_view(),
                s == self.deep_view(),
                kk == k@,
                vv == v.deep_view(),
                forall|j: int| 0 <= j < i ==> s[j].0 != kk,
        {
            if self.entries[i].0 == k {
                proof {
                    lemma_find_key_at(s, kk, i as int);
                    assert(s[i as int].0 == kk);
                }
                self.entries.set(i, (k, v));
                proof {
                    assert(upsert(s, kk, vv) == s.update(i as int, (kk, vv)));
                    assert(self.deep_view() =~= s.update(i as int, (kk, vv)));
                }
                return ;
            }
        }
        proof {
            lemma_find_key(s, kk);
        }
        self.entries.push((k, v));
        proof {
            assert(self.deep_view() =~= upsert(s, kk, vv));
        }
    }

    /// Append an entry verbatim, without looking at the keys already bound:
    /// for rebuilding a map whose entries are given in order.
    pub(crate) fn push_entry(&mut self, k: String, v: V)
        ensures
            final(self).deep_view() == old(self).deep_view().push((k@, v.deep_view())),
    {
        let ghost s = self.deep_view();
        let ghost kk = k@;
        let ghost vv = v.deep_view();
        self.entries.push((k, v));
        proof {
            assert(self.deep_view() =~= s.push((kk, vv)));
        }
    }
}

// ---------------------------------------------------------------------------
// Scalar values.
// ---------------------------------------------------------------------------

/// A scalar value in a pair, variable binding, or reference weight.
///
/// `Float` keeps the source spelling of the literal (sign, digits, one dot)
/// verbatim, so nothing is lost between parsing and serialization.  `Var` is
/// a *pending* value: a bare identifier in value position, to be substituted
/// by the variable's bound scalar during resolution.  After resolution every
/// value in the model is concrete.
#[derive(Debug, PartialEq, Eq)]
pub enum Value {
    Int(i128),
    Float(String),
    Str(String),
    Var(String),
}

/// The mathematical model of a [`Value`].
pub enum ValueV {
    Int(int),
    Float(Seq<char>),
    Str(Seq<char>),
    Var(Seq<char>),
}

impl DeepView for Value {
    type V = ValueV;

    open spec fn deep_view(&self) -> ValueV {
        match self {
            Value::Int(n) => ValueV::Int(*n as int),
            Value::Float(s) => ValueV::Float(s@),
            Value::Str(s) => ValueV::Str(s@),
            Value::Var(s) => ValueV::Var(s@),
        }
    }
}

/// A value is concrete when it is not a pending variable reference.
pub open spec fn value_concrete(v: ValueV) -> bool {
    !(v is Var)
}

// ---------------------------------------------------------------------------
// Blocks: recursively nested named containers.
// ---------------------------------------------------------------------------

/// The mathematical model of a [`Block`].
#[verifier::ext_equal]
pub struct BlockV {
    pub id: Seq<char>,
    pub pairs: Seq<(Seq<char>, ValueV)>,
    pub blocks: Seq<(Seq<char>, BlockV)>,
}

/// A recursively nestable named container of key/value pairs and child
/// blocks.  Children are owned exclusively: the model is a tree.
#[derive(Debug, PartialEq, Eq)]
pub struct Block {
    pub id: String,
    pub pairs: KvMap<Value>,
    pub blocks: BlockMap,
}

/// An ordered map from name to child [`Block`], with the same semantics as
/// [`KvMap`].
#[derive(Debug, PartialEq, Eq)]
pub struct BlockMap {
    entries: Vec<(String, Block)>,
}

/// The model of a block: its name, pairs, and children, recursively.
pub open spec fn block_view(b: Block) -> BlockV
    decreases b, 0int,
{
    BlockV {
        id: b.id@,
        pairs: b.pairs.deep_view(),
        blocks: block_entries_view(b.blocks),
    }
}

/// The model of the first `n` entries of a block list: each entry's key
/// with the child's model.
pub closed spec fn block_seq_view(s: Seq<(String, Block)>, n: int) -> Seq<(Seq<char>, BlockV)>
    decreases s, n,
        when n <= s.len()
{
    if n <= 0 {
        Seq::empty()
    } else {
        proof {
            assert(decreases_to!(s => s[n - 1]));
            assert(decreases_to!(s[n - 1] => s[n - 1].1));
        }
        block_seq_view(s, n - 1).push((s[n - 1].0@, block_view(s[n - 1].1)))
    }
}

/// Each position of `block_seq_view(s, n)` is the model of the entry there.
pub proof fn lemma_block_seq_view(s: Seq<(String, Block)>, n: int)
    requires
        0 <= n <= s.len(),
    ensures
        block_seq_view(s, n).len() == n,
        forall|i: int| 0 <= i < n ==> block_seq_view(s, n)[i] == (s[i].0@, block_view(s[i].1)),
    decreases n,
{
    if n > 0 {
        lemma_block_seq_view(s, n - 1);
    }
}

/// The model of a block map: each entry's key with the child's model.
pub closed spec fn block_entries_view(m: BlockMap) -> Seq<(Seq<char>, BlockV)>
    decreases m,
{
    block_seq_view(m.entries@, m.entries@.len() as int)
}

impl DeepView for Block {
    type V = BlockV;

    open spec fn deep_view(&self) -> BlockV {
        block_view(*self)
    }
}

impl DeepView for BlockMap {
    type V = Seq<(Seq<char>, BlockV)>;

    open spec fn deep_view(&self) -> Self::V {
        block_entries_view(*self)
    }
}


impl Block {
    /// An empty block named `id`.
    pub fn new(id: String) -> (r: Block)
        ensures
            r.deep_view() == (BlockV {
                id: id@,
                pairs: Seq::<(Seq<char>, ValueV)>::empty(),
                blocks: Seq::<(Seq<char>, BlockV)>::empty(),
            }),
    {
        let r = Block { id, pairs: KvMap::new(), blocks: BlockMap::new() };
        proof {
            assert(r.deep_view() =~= (BlockV {
                id: r.id@,
                pairs: Seq::<(Seq<char>, ValueV)>::empty(),
                blocks: Seq::<(Seq<char>, BlockV)>::empty(),
            }));
        }
        r
    }
}

impl BlockMap {
    /// The empty map.
    pub fn new() -> (r: Self)
        ensures
            r.deep_view() == Seq::<(Seq<char>, BlockV)>::empty(),
    {
        let r = BlockMap { entries: Vec::new() };
        proof {
            assert(r.deep_view() =~= Seq::<(Seq<char>, BlockV)>::empty());
        }
        r
    }

    /// How many children there are.
    pub fn len(&self) -> (n: usize)
        ensures
            n == self.deep_view().len(),
    {
        proof {
            lemma_block_seq_view(self.entries@, self.entries@.len() as int);
        }
        self.entries.len()
    }

    /// The name of the child at position `i`.
    pub fn key_at(&self, i: usize) -> (k: &String)
        requires
            i < self.deep_view().len(),
        ensures
            k@ == self.deep_view()[i as int].0,
    {
        proof {
            lemma_block_seq_view(self.entries@, self.entries@.len() as int);
        }
        &self.entries[i].0
    }

    /// The child at position `i`.
    pub fn val_at(&self, i: usize) -> (v: &Block)
        requires
            i < self.deep_view().len(),
        ensures
            v.deep_view() == self.deep_view()[i as int].1,
    {
        proof {
            lemma_block_seq_view(self.entries@, self.entries@.len() as int);
        }
        &self.entries[i].1
    }

    /// The child named `k`, if any.
    pub fn get(&self, k: &String) -> (r: Option<&Block>)
        ensures
            match r {
                Some(v) => lookup(self.deep_view(), k@) == Some(v.deep_view()),
                None => lookup(self.deep_view(), k@) is None,
            },
    {
        let ghost s = self.deep_view();
        let ghost e0 = self.entries@;
        proof {
            lemma_block_seq_view(e0, e0.len() as int);
        }
        let n = self.entries.len();
        for i in 0..n
            invariant
                n == s.len(),
                n == self.entries@.len(),
                e0 == self.entries@,
                s == self.deep_view(),
                forall|j: int| 0 <= j < n ==> s[j] == (e0[j].0@, block_view(e0[j].1)),
                forall|j: int| 0 <= j < i ==> s[j].0 != k@,
        {
            if self.entries[i].0 == *k {
                proof {
                    lemma_find_key_at(s, k@, i as int);
                }
                return Some(&self.entries[i].1);
            }
        }
        proof {
            lemma_find_key(s, k@);
        }
        None
    }

    /// Bind `k` to `v`: overwrite in place if present, append otherwise.
    pub fn insert(&mut self, k: String, v: Block)
        ensures
            final(self).deep_view() == upsert(old(self).deep_view(), k@, v.deep_view()),
            unique_keys(old(self).deep_view()) ==> unique_keys(final(self).deep_view()),
    {
        let ghost s = self.deep_view();
        let ghost kk = k@;
        let ghost vv = v.deep_view();
        let ghost e0 = self.entries@;
        proof {
            lemma_block_seq_view(e0, e0.len() as int);
            if unique_keys(s) {
                lemma_upsert(s, kk, vv);
            }
        }
        let n = self.entries.len();
        for i in 0..n
            invariant
                n == s.len(),
                n == self.entries@.len(),
                e0 == self.entries@,
                s == old(self).deep_view(),
                s == self.deep_view(),
                forall|j: int| 0 <= j < n ==> s[j] == (e0[j].0@, block_view(e0[j].1)),
                kk == k@,
                vv == v.deep_view(),
                forall|j: int| 0 <= j < i ==> s[j].0 != kk,
        {
            if self.entries[i].0 == k {
                proof {
                    lemma_find_key_at(s, kk, i as int);
                    assert(s[i as int].0 == kk);
                }
                self.entries.set(i, (k, v));
                proof {
                    lemma_block_seq_view(self.entries@, self.entries@.len() as int);
                    assert(upsert(s, kk, vv) == s.update(i as int, (kk, vv)));
                    assert(self.deep_view() =~= s.update(i as int, (kk, vv)));
                }
                return ;
            }
        }
        proof {
            lemma_find_key(s, kk);
        }
        self.entries.push((k, v));
        proof {
            lemma_block_seq_view(self.entries@, self.entries@.len() as int);
            assert(self.deep_view() =~= upsert(s, kk, vv));
        }
    }

    /// Append an entry verbatim, without looking at the keys already bound:
    /// for rebuilding a map whose entries are given in order.
    pub(crate) fn push_entry(&mut self, k: String, v: Block)
        ensures
            final(self).deep_view() == old(self).deep_view().push((k@, v.deep_view())),
    {
        let ghost s = self.deep_view();
        let ghost kk = k@;
        let ghost vv = v.deep_view();
        proof {
            lemma_block_seq_view(self.entries@, self.entries@.len() as int);
        }
        self.entries.push((k, v));
        proof {
            lemma_block_seq_view(self.entries@, self.entries@.len() as int);
            assert(self.deep_view() =~= s.push((kk, vv)));
        }
    }
}

// ---------------------------------------------------------------------------
// Items, groups, and the document.
// ---------------------------------------------------------------------------

/// The mathematical model of an [`Item`].
#[verifier::ext_equal]
pub struct ItemV {
    pub id: Seq<char>,
    pub pairs: Seq<(Seq<char>, ValueV)>,
    pub blocks: Seq<(Seq<char>, BlockV)>,
}

/// A named leaf entity: key/value pairs and nested blocks.
#[derive(Debug, PartialEq, Eq)]
pub struct Item {
    pub id: String,
    pub pairs: KvMap<Value>,
    pub blocks: BlockMap,
}

impl DeepView for Item {
    type V = ItemV;

    open spec fn deep_view(&self) -> ItemV {
        ItemV { id: self.id@, pairs: self.pairs.deep_view(), blocks: self.blocks.deep_view() }
    }
}

impl Item {
    /// An empty item named `id`.
    pub fn new(id: String) -> (r: Item)
        ensures
            r.deep_view() == (ItemV {
                id: id@,
                pairs: Seq::<(Seq<char>, ValueV)>::empty(),
                blocks: Seq::<(Seq<char>, BlockV)>::empty(),
            }),
    {
        let r = Item { id, pairs: KvMap::new(), blocks: BlockMap::new() };
        proof {
            assert(r.deep_view() =~= (ItemV {
                id: r.id@,
                pairs: Seq::<(Seq<char>, ValueV)>::empty(),
                blocks: Seq::<(Seq<char>, BlockV)>::empty(),
            }));
        }
        r
    }
}

/// The mathematical model of a [`Group`].
#[verifier::ext_equal]
pub struct GroupV {
    pub id: Seq<char>,
    pub pairs: Seq<(Seq<char>, ValueV)>,
    pub blocks: Seq<(Seq<char>, BlockV)>,
    pub reference: Seq<(Seq<char>, ValueV)>,
}

/// A named entity that, besides pairs and blocks, holds weighted references
/// `&Name: weight` to other declared entities.
#[derive(Debug, PartialEq, Eq)]
pub struct Group {
    pub id: String,
    pub pairs: KvMap<Value>,
    pub blocks: BlockMap,
    pub reference: KvMap<Value>,
}

impl DeepView for Group {
    type V = GroupV;

    open spec fn deep_view(&self) -> GroupV {
        GroupV {
            id: self.id@,
            pairs: self.pairs.deep_view(),
            blocks: self.blocks.deep_view(),
            reference: self.reference.deep_view(),
        }
    }
}

impl Group {
    /// An empty group named `id`.
    pub fn new(id: String) -> (r: Group)
        ensures
            r.deep_view() == (GroupV {
                id: id@,
                pairs: Seq::<(Seq<char>, ValueV)>::empty(),
                blocks: Seq::<(Seq<char>, BlockV)>::empty(),
                reference: Seq::<(Seq<char>, ValueV)>::empty(),
            }),
    {
        let r = Group {
            id,
            pairs: KvMap::new(),
            blocks: BlockMap::new(),
            reference: KvMap::new(),
        };
        proof {
            assert(r.deep_view() =~= (GroupV {
                id: r.id@,
                pairs: Seq::<(Seq<char>, ValueV)>::empty(),
                blocks: Seq::<(Seq<char>, BlockV)>::empty(),
                reference: Seq::<(Seq<char>, ValueV)>::empty(),
            }));
        }
        r
    }
}

/// The mathematical model of a [`Document`].
#[verifier::ext_equal]
pub struct DocumentV {
    pub variables: Seq<(Seq<char>, ValueV)>,
    pub items: Seq<(Seq<char>, ItemV)>,
    pub groups: Seq<(Seq<char>, GroupV)>,
}

/// The root container of one DML source: variable bindings, items, and
/// groups, each keyed by identifier.
#[derive(Debug, PartialEq, Eq)]
pub struct Document {
    pub variables: KvMap<Value>,
    pub items: KvMap<Item>,
    pub groups: KvMap<Group>,
}

impl DeepView for Document {
    type V = DocumentV;

    open spec fn deep_view(&self) -> DocumentV {
        DocumentV {
            variables: self.variables.deep_view(),
            items: self.items.deep_view(),
            groups: self.groups.deep_view(),
        }
    }
}

impl Document {
    /// An empty document.
    pub fn new() -> (r: Document)
        ensures
            r.deep_view() == (DocumentV {
                variables: Seq::<(Seq<char>, ValueV)>::empty(),
                items: Seq::<(Seq<char>, ItemV)>::empty(),
                groups: Seq::<(Seq<char>, GroupV)>::empty(),
            }),
    {
        let r = Document { variables: KvMap::new(), items: KvMap::new(), groups: KvMap::new() };
        proof {
            assert(r.deep_view() =~= (DocumentV {
                variables: Seq::<(Seq<char>, ValueV)>::empty(),
                items: Seq::<(Seq<char>, ItemV)>::empty(),
                groups: Seq::<(Seq<char>, GroupV)>::empty(),
            }));
        }
        r
    }
}

// ---------------------------------------------------------------------------
// Concreteness: no pending variable references anywhere.
// ---------------------------------------------------------------------------

/// Every value in a pair list is concrete.
pub open spec fn pairs_concrete(s: Seq<(Seq<char>, ValueV)>) -> bool {
    forall|i: int| 0 <= i < s.len() ==> value_concrete(#[trigger] s[i].1)
}

/// Every value in the first `n` block entries is concrete, recursively.
pub open spec fn blocks_concrete(s: Seq<(Seq<char>, BlockV)>, n: int) -> bool
    decreases s, n,
        when n <= s.len()
{
    if n <= 0 {
        true
    } else {
        proof {
            assert(decreases_to!(s => s[n - 1]));
            assert(decreases_to!(s[n - 1] => s[n - 1].1));
        }
        blocks_concrete(s, n - 1) && block_concrete(s[n - 1].1)
    }
}

/// Every value in the block is concrete, recursively.
pub open spec fn block_concrete(b: BlockV) -> bool
    decreases b, 0int,
{
    pairs_concrete(b.pairs) && blocks_concrete(b.blocks, b.blocks.len() as int)
}

/// `blocks_concrete` holds exactly when each entry is concrete.
pub proof fn lemma_blocks_concrete(s: Seq<(Seq<char>, BlockV)>, n: int)
    requires
        0 <= n <= s.len(),
    ensures
        blocks_concrete(s, n) <==> (forall|i: int| 0 <= i < n ==> block_concrete(#[trigger] s[i].1)),
    decreases n,
{
    if n > 0 {
        lemma_blocks_concrete(s, n - 1);
    }
}

/// Every value in the item is concrete.
pub open spec fn item_concrete(it: ItemV) -> bool {
    pairs_concrete(it.pairs) && blocks_concrete(it.blocks, it.blocks.len() as int)
}

/// Every value in the group is concrete, reference weights included.
pub open spec fn group_concrete(g: GroupV) -> bool {
    pairs_concrete(g.pairs) && blocks_concrete(g.blocks, g.blocks.len() as int)
        && pairs_concrete(g.reference)
}

/// Every value in the document is concrete: what resolution establishes.
pub open spec fn doc_concrete(d: DocumentV) -> bool {
    pairs_concrete(d.variables) && (forall|i: int|
        0 <= i < d.items.len() ==> item_concrete(#[trigger] d.items[i].1)) && (forall|i: int|
        0 <= i < d.groups.len() ==> group_concrete(#[trigger] d.groups[i].1))
}

} // verus!
