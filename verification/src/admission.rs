//! The policy that decides which entries are let into the store.

use crate::code::{Code, Key, Value};
use crate::indices::Indices;
use std::fmt::Debug;
use std::sync::Arc;
use vstd::prelude::*;

verus! {

/// What a policy may look at.
#[derive(Debug, Clone)]
pub struct AdmissionContext<K: Key, M> {
    /// the index of the store
    pub catalog: Arc<Indices<K>>,
    /// the counters of the store
    pub metrics: Arc<M>,
}

/// A policy that decides which entries are let into the store.
///
/// What it decides is up to it: the store is correct for every decision.
pub trait AdmissionPolicy: Send + Sync + 'static + Debug {
    /// the keys of the store
    type Key: Key;

    /// the values of the store
    type Value: Value;

    /// the counters of the store
    type Metrics;

    /// Is handed the surroundings of the store. Does nothing by default.
    fn init(&self, context: AdmissionContext<Self::Key, Self::Metrics>) {
    }

    /// Decides whether an entry of this key and this many bytes of key and
    /// value is let in.
    fn judge(&self, key: &Self::Key, weight: usize) -> bool;

    /// Is told of an entry that was inserted, and of what was decided.
    fn on_insert(&self, key: &Self::Key, weight: usize, judge: bool);

    /// Is told of an entry that was dropped, and of what was decided.
    fn on_drop(&self, key: &Self::Key, weight: usize, judge: bool);
}

/// The weight of an entry: the bytes of its key and its value.
pub open spec fn entry_weight<K: Key, V: Value>(key: K, value: V) -> nat {
    K::encode(key@).len() + V::encode(value@).len()
}

/// Whether a policy may answer `admitted` when it is asked about this key with
/// the weight of key and value.
pub open spec fn may_admit<AP: AdmissionPolicy>(
    policy: AP,
    key: AP::Key,
    value: AP::Value,
    admitted: bool,
) -> bool {
    call_ensures(AP::judge, (&policy, &key, entry_weight(key, value) as usize), admitted)
}

/// Asks a policy whether an entry is let in.
pub fn ask<AP: AdmissionPolicy>(policy: &AP, key: &AP::Key, value: &AP::Value) -> (admitted: bool)
    requires
        entry_weight(*key, *value) <= usize::MAX,
    ensures
        may_admit(*policy, *key, *value, admitted),
        call_ensures(
            AP::judge,
            (
                policy,
                key,
                (<AP::Key as Code>::encode(key@).len() + <AP::Value as Code>::encode(
                    value@,
                ).len()) as usize,
            ),
            admitted,
        ),
{
    let weight: usize = key.serialized_len() + value.serialized_len();
    policy.judge(key, weight)
}

/// The weight of an entry is the length of its key and its value, and what a
/// policy may answer for an entry is what it may answer for the key and that
/// weight.
pub proof fn law_policy_is_asked<AP: AdmissionPolicy>(
    policy: AP,
    key: AP::Key,
    value: AP::Value,
    admitted: bool,
)
    ensures
        ({
            let key_len = <AP::Key as Code>::encode(key@).len();
            let value_len = <AP::Value as Code>::encode(value@).len();
            &&& entry_weight(key, value) == key_len + value_len
            &&& may_admit(policy, key, value, admitted) <==> call_ensures(
                AP::judge,
                (&policy, &key, (key_len + value_len) as usize),
                admitted,
            )
        }),
{
}

} // verus!
