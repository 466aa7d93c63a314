//! The store's laws: what holds of every store, every key and every
//! sequence of operations, stated over the same model that the
//! engine's contracts speak of and proved once and for all.
//!
//! `KvStore::set`, `KvStore::remove` and `KvStore::open` relate the
//! model after a call to the model before it; `KvStore::get` returns
//! exactly the model's binding.  The laws here chain those contracts
//! together.

use vstd::prelude::*;

use crate::kv::{spec_load, spec_total_len, KvStore};
use crate::logset::LogFile;

verus! {

/// After `set(key, value)` succeeds, `get(key)` returns `Some(value)`,
/// and it keeps doing so until a later write touches the same key:
/// writes to other keys do not disturb the binding.
pub proof fn law_set_then_get(pre: KvStore, post: KvStore, key: Seq<char>, value: Seq<char>)
    requires
        post.model() == pre.model().insert(key, value),
    ensures
        post.model().dom().contains(key),
        post.model()[key] == value,
{
}

/// After `remove(key)` succeeds, `get(key)` returns `None`, and keeps
/// doing so until a later `set` binds the key again.
pub proof fn law_remove_then_get(pre: KvStore, post: KvStore, key: Seq<char>)
    requires
        post.model() == pre.model().remove(key),
    ensures
        !post.model().dom().contains(key),
{
}

/// A write to one key leaves every other key's binding unchanged,
/// whether the write was a `set` or a `remove`.
pub proof fn law_other_keys_undisturbed(
    pre: KvStore,
    post: KvStore,
    touched: Seq<char>,
    other: Seq<char>,
)
    requires
        other != touched,
        post.model() == pre.model().insert(touched, post.model()[touched]) || post.model()
            == pre.model().remove(touched),
    ensures
        post.model().dom().contains(other) == pre.model().dom().contains(other),
        pre.model().dom().contains(other) ==> post.model()[other] == pre.model()[other],
{
}

/// Sequence numbers strictly increase across successful writes: each
/// successful `set` or `remove` moves the counter from `n` to `n + 1`,
/// so two consecutive successful writes carry strictly increasing
/// sequence numbers.
pub proof fn law_sequence_numbers_increase(s0: KvStore, s1: KvStore, s2: KvStore)
    requires
        s1.sequence() == s0.sequence() + 1,
        s2.sequence() == s1.sequence() + 1,
    ensures
        s0.sequence() < s1.sequence() < s2.sequence(),
{
}

/// Reopening a store on its own log files yields the same contents:
/// the logs of a well-formed store replay to exactly its live model,
/// so `open` on those files ensures a store whose every `get` agrees.
/// The remaining clauses are what `open` asks of its input, so a
/// caller whose generation counter has headroom can chain the two;
/// the one store this does not cover is one whose counter has
/// reached the end of the 64-bit generation space.
pub proof fn law_reopen_preserves_contents(s: KvStore)
    requires
        s.wf(),
    ensures
        spec_load(s.log_view()) is Ok,
        spec_load(s.log_view())->Ok_0.model == s.model(),
        forall|i: int, j: int|
            0 <= i < j < s.log_view().len() ==> s.log_view()[i].generation
                < s.log_view()[j].generation,
        s.log_view().len() >= 1,
        s.log_view().last().generation == s.generation(),
{
    s.lemma_wf_facts();
}

/// Every record a well-formed store holds decodes and passes its
/// checksum: a replay fails on the first record that does not, so a
/// log set that replays at all contains only verifiable records.
pub proof fn law_all_records_verify(s: KvStore)
    requires
        s.wf(),
    ensures
        spec_load(s.log_view()) is Ok,
{
    s.lemma_wf_facts();
}

} // verus!
