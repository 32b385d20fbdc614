//! Persistence: the store that certificates and reconnect records are kept
//! in, and the one-shot redemption of a reconnect record.

use vstd::prelude::*;
use crate::error::{LolbError, LolbResult};
use crate::serv_auth::{valid_at, Preauthed, ReconnectKey};
use crate::text::str_eq;

verus! {

/// Under what a value is stored.
#[derive(Debug, Clone, PartialEq, Eq)]
pub enum PersistKey {
    /// Certificate material, by the name that the ACME client gives it.
    Acme(String),
    /// The record behind a reconnect key.
    ReconnectKey(u64),
}

/// A key as plain values.
pub enum PersistKeyView {
    Acme(Seq<char>),
    ReconnectKey(u64),
}

impl View for PersistKey {
    type V = PersistKeyView;

    open spec fn view(&self) -> PersistKeyView {
        match self {
            PersistKey::Acme(name) => PersistKeyView::Acme(name@),
            PersistKey::ReconnectKey(n) => PersistKeyView::ReconnectKey(*n),
        }
    }
}

impl PersistKey {
    /// A key of the same name.
    pub fn copy(&self) -> (r: PersistKey)
        ensures
            r@ == self@,
    {
        match self {
            PersistKey::Acme(name) => PersistKey::Acme(name.clone()),
            PersistKey::ReconnectKey(n) => PersistKey::ReconnectKey(*n),
        }
    }

    /// Whether two keys name the same entry.
    pub fn same(&self, other: &PersistKey) -> (r: bool)
        ensures
            r == (self@ == other@),
    {
        match (self, other) {
            (PersistKey::Acme(a), PersistKey::Acme(b)) => str_eq(a.as_str(), b.as_str()),
            (PersistKey::ReconnectKey(a), PersistKey::ReconnectKey(b)) => *a == *b,
            _ => false,
        }
    }
}

/// A store of byte strings under keys. An implementation keeps them where it
/// likes; the contracts say what a well-behaved store does.
pub trait Persist {
    /// What the store holds.
    spec fn contents(&self) -> Map<PersistKeyView, Seq<u8>>;

    /// Whether the store cannot fail: every call of it succeeds.
    spec fn reliable(&self) -> bool;

    /// Stores `value` under `key`, in place of what was there.
    fn save(&mut self, key: &PersistKey, value: &[u8]) -> (r: LolbResult<()>)
        ensures
            final(self).reliable() == old(self).reliable(),
            old(self).reliable() ==> r is Ok,
            r is Ok ==> final(self).contents() == old(self).contents().insert(key@, value@),
            r is Err ==> final(self).contents() == old(self).contents(),
    ;

    /// Reads what is stored under `key`.
    fn load(&self, key: &PersistKey) -> (r: LolbResult<Option<Vec<u8>>>)
        ensures
            self.reliable() ==> r is Ok,
            r matches Ok(found) ==> match found {
                Some(value) => self.contents().contains_key(key@) && self.contents()[key@]
                    == value@,
                None => !self.contents().contains_key(key@),
            },
    ;

    /// Reads what is stored under `key` and removes it, in one step.
    fn take(&mut self, key: &PersistKey) -> (r: LolbResult<Option<Vec<u8>>>)
        ensures
            final(self).reliable() == old(self).reliable(),
            old(self).reliable() ==> r is Ok,
            r matches Ok(found) ==> {
                &&& final(self).contents() == old(self).contents().remove(key@)
                &&& match found {
                    Some(value) => old(self).contents().contains_key(key@) && old(
                        self,
                    ).contents()[key@] == value@,
                    None => !old(self).contents().contains_key(key@),
                }
            },
            r is Err ==> final(self).contents() == old(self).contents(),
    ;
}

/// The entry that holds the record of a reconnect key.
pub open spec fn key_of(key: ReconnectKey) -> PersistKeyView {
    PersistKeyView::ReconnectKey(key.0)
}

/// Stores the serialised record `record` under a reconnect key.
pub fn save_preauthed<P: Persist>(persist: &mut P, key: ReconnectKey, record: &[u8]) -> (r:
    LolbResult<()>)
    ensures
        final(persist).reliable() == old(persist).reliable(),
        old(persist).reliable() ==> r is Ok,
        r is Ok ==> final(persist).contents() == old(persist).contents().insert(
            key_of(key),
            record@,
        ),
        r is Err ==> final(persist).contents() == old(persist).contents(),
{
    let pk = PersistKey::ReconnectKey(key.0);
    persist.save(&pk, record)
}

/// Redeems a reconnect key: hands out the serialised record stored under it
/// and removes it from the store, so that the key redeems once at most.
pub fn load_preauthed<P: Persist>(persist: &mut P, key: ReconnectKey) -> (r: LolbResult<
    Option<Vec<u8>>,
>)
    ensures
        final(persist).reliable() == old(persist).reliable(),
        old(persist).reliable() ==> r is Ok,
        r matches Ok(found) ==> {
            &&& !final(persist).contents().contains_key(key_of(key))
            &&& final(persist).contents() == old(persist).contents().remove(key_of(key))
            &&& match found {
                Some(record) => old(persist).contents().contains_key(key_of(key)) && old(
                    persist,
                ).contents()[key_of(key)] == record@,
                None => !old(persist).contents().contains_key(key_of(key)),
            }
        },
        r is Err ==> final(persist).contents() == old(persist).contents(),
{
    let pk = PersistKey::ReconnectKey(key.0);
    persist.take(&pk)
}

/// Decides on a record that was redeemed and decoded: it is accepted while
/// it is less than ten seconds old at `now`, and refused from then on. A key
/// under which nothing was stored is refused too.
pub fn accept_preauthed(record: Option<Preauthed>, now: u64) -> (r: LolbResult<Preauthed>)
    ensures
        match record {
            Some(p) => if valid_at(p@.created, now) {
                r == Ok::<Preauthed, LolbError>(p)
            } else {
                r == Err::<Preauthed, LolbError>(LolbError::Protocol("preauth has expired"))
            },
            None => r == Err::<Preauthed, LolbError>(
                LolbError::Protocol("No preauth for incoming 'lolb' prefix"),
            ),
        },
{
    match record {
        Some(p) => {
            if p.is_valid_at(now) {
                Ok(p)
            } else {
                Err(LolbError::Protocol("preauth has expired"))
            }
        },
        None => Err(LolbError::Protocol("No preauth for incoming 'lolb' prefix")),
    }
}

/// A key that was redeemed is gone from the store: redeeming it again finds
/// nothing.
pub proof fn law_redeems_once(before: Map<PersistKeyView, Seq<u8>>, key: ReconnectKey)
    ensures
        !before.remove(key_of(key)).contains_key(key_of(key)),
        before.remove(key_of(key)).remove(key_of(key)) == before.remove(key_of(key)),
{
    assert(before.remove(key_of(key)).remove(key_of(key)) =~= before.remove(key_of(key)));
}

/// A store in memory.
pub struct MemoryPersist {
    entries: Vec<(PersistKey, Vec<u8>)>,
    broken: bool,
}

/// The map that a list of entries stands for: a later entry replaces an
/// earlier one of the same key.
pub open spec fn entries_map(entries: Seq<(PersistKey, Vec<u8>)>) -> Map<PersistKeyView, Seq<u8>>
    decreases entries.len(),
{
    if entries.len() == 0 {
        Map::empty()
    } else {
        entries_map(entries.drop_last()).insert(entries.last().0@, entries.last().1@)
    }
}

/// Whether `kept` holds, in order, entries that stand for those of
/// `entries` whose key is not `key`.
spec fn is_without(
    entries: Seq<(PersistKey, Vec<u8>)>,
    kept: Seq<(PersistKey, Vec<u8>)>,
    key: PersistKeyView,
) -> bool
    decreases entries.len(),
{
    if entries.len() == 0 {
        kept.len() == 0
    } else if entries.last().0@ == key {
        is_without(entries.drop_last(), kept, key)
    } else {
        &&& kept.len() > 0
        &&& kept.last().0@ == entries.last().0@
        &&& kept.last().1@ == entries.last().1@
        &&& is_without(entries.drop_last(), kept.drop_last(), key)
    }
}

proof fn lemma_entries_without(
    entries: Seq<(PersistKey, Vec<u8>)>,
    kept: Seq<(PersistKey, Vec<u8>)>,
    key: PersistKeyView,
)
    requires
        is_without(entries, kept, key),
    ensures
        entries_map(kept) == entries_map(entries).remove(key),
    decreases entries.len(),
{
    if entries.len() == 0 {
        assert(entries_map(kept) =~= entries_map(entries).remove(key));
    } else if entries.last().0@ == key {
        lemma_entries_without(entries.drop_last(), kept, key);
        assert(entries_map(kept) =~= entries_map(entries).remove(key));
    } else {
        lemma_entries_without(entries.drop_last(), kept.drop_last(), key);
        assert(entries_map(kept) =~= entries_map(entries).remove(key));
    }
}

impl MemoryPersist {
    /// An empty store that never fails.
    pub fn new() -> (r: MemoryPersist)
        ensures
            r.contents() == Map::<PersistKeyView, Seq<u8>>::empty(),
            r.reliable(),
    {
        MemoryPersist { entries: Vec::new(), broken: false }
    }

    /// Makes every later call of the store fail. What it holds stays.
    pub fn break_down(&mut self)
        ensures
            final(self).contents() == old(self).contents(),
            !final(self).reliable(),
    {
        self.broken = true;
    }

    /// The index of the last entry under `key`.
    fn find(&self, key: &PersistKey) -> (r: Option<usize>)
        ensures
            match r {
                Some(i) => i < self.entries@.len() && self.contents().contains_key(key@)
                    && self.contents()[key@] == self.entries@[i as int].1@,
                None => !self.contents().contains_key(key@),
            },
    {
        let mut i: usize = self.entries.len();
        assert(self.entries@.take(i as int) =~= self.entries@);
        while i > 0
            invariant
                i <= self.entries@.len(),
                self.contents().contains_key(key@) <==> entries_map(
                    self.entries@.take(i as int),
                ).contains_key(key@),
                self.contents().contains_key(key@) ==> self.contents()[key@] == entries_map(
                    self.entries@.take(i as int),
                )[key@],
            decreases i,
        {
            let ghost upto = self.entries@.take(i as int);
            assert(upto.drop_last() =~= self.entries@.take(i - 1));
            assert(upto.last() == self.entries@[i - 1]);
            i = i - 1;
            if self.entries[i].0.same(key) {
                return Some(i);
            }
        }
        None
    }
}

impl Persist for MemoryPersist {
    closed spec fn contents(&self) -> Map<PersistKeyView, Seq<u8>> {
        entries_map(self.entries@)
    }

    closed spec fn reliable(&self) -> bool {
        !self.broken
    }

    fn save(&mut self, key: &PersistKey, value: &[u8]) -> (r: LolbResult<()>)
        ensures
            r is Ok <==> old(self).reliable(),
    {
        if self.broken {
            return Err(LolbError::Message("the store is out of order"));
        }
        let stored = vstd::slice::slice_to_vec(value);
        let ghost before = self.entries@;
        self.entries.push((key.copy(), stored));
        proof {
            assert(self.entries@.drop_last() =~= before);
        }
        Ok(())
    }

    fn load(&self, key: &PersistKey) -> (r: LolbResult<Option<Vec<u8>>>)
        ensures
            r is Ok <==> self.reliable(),
    {
        if self.broken {
            return Err(LolbError::Message("the store is out of order"));
        }
        match self.find(key) {
            Some(i) => Ok(Some(vstd::slice::slice_to_vec(self.entries[i].1.as_slice()))),
            None => Ok(None),
        }
    }

    fn take(&mut self, key: &PersistKey) -> (r: LolbResult<Option<Vec<u8>>>)
        ensures
            r is Ok <==> old(self).reliable(),
    {
        if self.broken {
            return Err(LolbError::Message("the store is out of order"));
        }
        let found = match self.find(key) {
            Some(i) => Some(vstd::slice::slice_to_vec(self.entries[i].1.as_slice())),
            None => None,
        };
        let mut kept: Vec<(PersistKey, Vec<u8>)> = Vec::new();
        let mut i: usize = 0;
        assert(self.entries@.take(0) =~= Seq::empty());
        while i < self.entries.len()
            invariant
                i <= self.entries@.len(),
                *self == *old(self),
                is_without(self.entries@.take(i as int), kept@, key@),
            decreases self.entries@.len() - i,
        {
            let ghost prior = kept@;
            proof {
                let next = self.entries@.take(i + 1);
                assert(next.drop_last() =~= self.entries@.take(i as int));
            }
            if !self.entries[i].0.same(key) {
                let entry = &self.entries[i];
                kept.push((entry.0.copy(), vstd::slice::slice_to_vec(entry.1.as_slice())));
                assert(kept@.drop_last() =~= prior);
            }
            i = i + 1;
        }
        proof {
            assert(self.entries@.take(i as int) =~= self.entries@);
            lemma_entries_without(self.entries@, kept@, key@);
        }
        self.entries = kept;
        Ok(found)
    }
}

} // verus!
