//! The in-memory index: key to the location of that key's most recent
//! Set record.
//!
//! The map itself is the skip-list of an outside crate; this module
//! gives it a mathematical contents function and small trusted
//! adapters for the few operations the engine performs, so the engine
//! logic above them is verified against an ordinary `Map`.

use vstd::prelude::*;

verus! {

/// The position and length of one framed record in the log set:
/// `generation` names the file, `pos` the byte offset of its 4-byte
/// length prefix, and `len` its total length including that prefix.
#[derive(Debug, Clone, Copy, PartialEq, Eq, Structural)]
pub struct CommandPos {
    /// The generation whose file holds the record.
    pub generation: u64,
    /// Byte offset of the record's length prefix in that file.
    pub pos: u64,
    /// Total length in bytes, the length prefix included.
    pub len: u64,
}

/// The concrete index: an ordered skip-list from key to record
/// location.  The skip-list type itself cannot be declared to the
/// verifier (its generics carry outside trait bounds), so it is held
/// opaquely here and reasoned about only through [`index_view`] and
/// the adapters below.
#[verifier::external_body]
pub struct KeyIndex {
    map: skiplist::SkipMap<String, CommandPos>,
}

/// What the index holds: each key's characters bound to the location
/// of its latest Set record.
pub uninterp spec fn index_view(m: KeyIndex) -> Map<Seq<char>, CommandPos>;

/// The empty contents a fresh index starts with.
pub open spec fn empty_index() -> Map<Seq<char>, CommandPos> {
    Map::empty()
}

/// Relies on `skiplist::SkipMap::new`: a freshly created map is empty.
#[verifier::external_body]
pub(crate) fn index_new() -> (r: KeyIndex)
    ensures
        index_view(r) == empty_index(),
{
    KeyIndex { map: skiplist::SkipMap::new() }
}

/// Relies on `skiplist::SkipMap::insert`: binds `key` to `pos`,
/// replacing and returning any previous binding of the same key.
#[verifier::external_body]
pub(crate) fn index_insert(
    m: &mut KeyIndex,
    key: String,
    pos: CommandPos,
) -> (r: Option<CommandPos>)
    ensures
        index_view(*final(m)) == index_view(*old(m)).insert(key@, pos),
        r == if index_view(*old(m)).contains_key(key@) {
            Some(index_view(*old(m))[key@])
        } else {
            None::<CommandPos>
        },
{
    m.map.insert(key, pos)
}

/// Relies on `skiplist::SkipMap::get`: the value bound to `key`, if
/// any.
#[verifier::external_body]
pub(crate) fn index_get(m: &KeyIndex, key: &String) -> (r: Option<CommandPos>)
    ensures
        r == if index_view(*m).contains_key(key@) {
            Some(index_view(*m)[key@])
        } else {
            None::<CommandPos>
        },
{
    m.map.get(key).copied()
}

/// Relies on `skiplist::SkipMap::contains_key`.
#[verifier::external_body]
pub(crate) fn index_contains_key(m: &KeyIndex, key: &String) -> (r: bool)
    ensures
        r == index_view(*m).contains_key(key@),
{
    m.map.contains_key(key)
}

/// Relies on `skiplist::SkipMap::remove`: unbinds `key`, returning the
/// binding it had.
#[verifier::external_body]
pub(crate) fn index_remove(m: &mut KeyIndex, key: &String) -> (r: Option<CommandPos>)
    ensures
        index_view(*final(m)) == index_view(*old(m)).remove(key@),
        r == if index_view(*old(m)).contains_key(key@) {
            Some(index_view(*old(m))[key@])
        } else {
            None::<CommandPos>
        },
{
    m.map.remove(key)
}

/// Relies on `skiplist::SkipMap::iter`: every entry of the map, each
/// exactly once.  Keys are distinct because a `KeyIndex` is only ever
/// built through `index_insert` and `index_remove`, which keep keys
/// unique.
#[verifier::external_body]
pub(crate) fn index_entries(m: &KeyIndex) -> (r: Vec<(String, CommandPos)>)
    ensures
        forall|i: int|
            0 <= i < r@.len() ==> #[trigger] index_view(*m).contains_key(r@[i].0@)
                && index_view(*m)[r@[i].0@] == r@[i].1,
        forall|i: int, j: int| 0 <= i < j < r@.len() ==> r@[i].0@ != r@[j].0@,
        forall|k: Seq<char>|
            #[trigger] index_view(*m).contains_key(k) ==> exists|i: int|
                0 <= i < r@.len() && r@[i].0@ == k,
{
    let mut entries = Vec::new();
    for (key, pos) in m.map.iter() {
        entries.push((key.clone(), *pos));
    }
    entries
}

/// The length-summing step used to fold over an index's keys.
pub open spec fn entry_len_step(m: Map<Seq<char>, CommandPos>) -> spec_fn(int, Seq<char>) -> int {
    |acc: int, k: Seq<char>| acc + m[k].len
}

/// The number of live bytes an index accounts for: the sum of the
/// record lengths of all its entries.
pub open spec fn spec_live_len(m: Map<Seq<char>, CommandPos>) -> int {
    m.dom().fold(0, entry_len_step(m))
}

/// Folding a length sum does not depend on values outside the folded
/// set.
proof fn lemma_len_fold_agrees(
    s: Set<Seq<char>>,
    f1: spec_fn(int, Seq<char>) -> int,
    f2: spec_fn(int, Seq<char>) -> int,
)
    requires
        s.finite(),
        vstd::set::fold::is_fun_commutative(f1),
        vstd::set::fold::is_fun_commutative(f2),
        forall|acc: int, k: Seq<char>| s.contains(k) ==> #[trigger] f1(acc, k) == f2(acc, k),
    ensures
        s.fold(0, f1) == s.fold(0, f2),
    decreases s.len(),
{
    broadcast use vstd::set::fold::lemma_fold_insert, vstd::set::fold::lemma_fold_empty;

    if s =~= Set::<Seq<char>>::empty() {
    } else {
        let k = s.choose();
        let s0 = s.remove(k);
        lemma_len_fold_agrees(s0, f1, f2);
        assert(s0.insert(k) =~= s);
    }
}

/// The step function of any index is commutative.
proof fn lemma_entry_len_step_commutative(m: Map<Seq<char>, CommandPos>)
    ensures
        vstd::set::fold::is_fun_commutative(entry_len_step(m)),
{
}

/// Binding a fresh key adds exactly that entry's length to the live
/// total.
proof fn lemma_live_len_insert_fresh(m: Map<Seq<char>, CommandPos>, k: Seq<char>, v: CommandPos)
    requires
        m.dom().finite(),
        !m.dom().contains(k),
    ensures
        spec_live_len(m.insert(k, v)) == spec_live_len(m) + v.len,
    decreases m.dom().len(),
{
    broadcast use vstd::set::fold::lemma_fold_insert, vstd::set::fold::lemma_fold_empty;

    let m2 = m.insert(k, v);
    lemma_entry_len_step_commutative(m);
    lemma_entry_len_step_commutative(m2);
    assert(m2.dom() =~= m.dom().insert(k));
    assert(m2.dom().fold(0, entry_len_step(m2)) == entry_len_step(m2)(
        m.dom().fold(0, entry_len_step(m2)),
        k,
    ));
    lemma_len_fold_agrees(m.dom(), entry_len_step(m2), entry_len_step(m));
}

/// Every live total is a sum of non-negative lengths.
pub proof fn lemma_live_len_nonneg(m: Map<Seq<char>, CommandPos>)
    requires
        m.dom().finite(),
    ensures
        spec_live_len(m) >= 0,
    decreases m.dom().len(),
{
    broadcast use vstd::set::fold::lemma_fold_empty;

    if m.dom() =~= Set::<Seq<char>>::empty() {
        assert(m.dom().fold(0, entry_len_step(m)) == 0);
    } else {
        let k = m.dom().choose();
        let m0 = m.remove(k);
        lemma_live_len_remove(m, k);
        lemma_live_len_nonneg(m0);
    }
}

/// Unbinding a key subtracts exactly that entry's length.
pub proof fn lemma_live_len_remove(m: Map<Seq<char>, CommandPos>, k: Seq<char>)
    requires
        m.dom().finite(),
    ensures
        spec_live_len(m.remove(k)) == spec_live_len(m) - if m.dom().contains(k) {
            m[k].len as int
        } else {
            0
        },
{
    if m.dom().contains(k) {
        let m0 = m.remove(k);
        lemma_live_len_insert_fresh(m0, k, m[k]);
        assert(m0.insert(k, m[k]) =~= m);
        assert(entry_len_step(m0.insert(k, m[k])) == entry_len_step(m));
    } else {
        assert(m.remove(k) =~= m);
    }
}

/// Two indexes with the same keys and the same entry lengths account
/// for the same number of live bytes.
pub proof fn lemma_live_len_pointwise(m1: Map<Seq<char>, CommandPos>, m2: Map<Seq<char>, CommandPos>)
    requires
        m1.dom().finite(),
        m1.dom() == m2.dom(),
        forall|k: Seq<char>| #[trigger] m1.dom().contains(k) ==> m1[k].len == m2[k].len,
    ensures
        spec_live_len(m1) == spec_live_len(m2),
{
    lemma_entry_len_step_commutative(m1);
    lemma_entry_len_step_commutative(m2);
    lemma_len_fold_agrees(m1.dom(), entry_len_step(m1), entry_len_step(m2));
}

/// Binding any key changes the live total by the difference between
/// the new entry's length and the replaced one's.
pub proof fn lemma_live_len_insert(m: Map<Seq<char>, CommandPos>, k: Seq<char>, v: CommandPos)
    requires
        m.dom().finite(),
    ensures
        spec_live_len(m.insert(k, v)) == spec_live_len(m) + v.len - if m.dom().contains(k) {
            m[k].len as int
        } else {
            0
        },
{
    let m0 = m.remove(k);
    lemma_live_len_remove(m, k);
    lemma_live_len_insert_fresh(m0, k, v);
    assert(m0.insert(k, v) =~= m.insert(k, v));
    assert(entry_len_step(m0.insert(k, v)) == entry_len_step(m.insert(k, v)));
}

} // verus!
