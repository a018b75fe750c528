use vstd::prelude::*;

verus! {

use crate::item::{Item, ItemModel};
use crate::ingest::{RawField, IngestError};

/// Why a store operation failed: nothing matched, or the request itself was
/// rejected before anything was touched.
#[derive(Clone, Copy, Debug, PartialEq, Eq, Structural)]
pub enum StoreError {
    NotFound,
    Rejected(IngestError),
}

/// What a successful read hands back: the stored bytes, or a redirect to the
/// stored target URL.
pub enum ReadOutcome {
    Stored { content: Vec<u8>, mimetype: Vec<u8>, filename: Vec<u8> },
    Redirect { location: Vec<u8>, mimetype: Vec<u8>, filename: Vec<u8> },
}

/// The models of the stored items, in order.
pub open spec fn models_of(items: Seq<Item>) -> Seq<ItemModel> {
    items.map_values(|it: Item| it@)
}

/// The lookup policy: an external id with the digest sigil addresses the item
/// by its digest; anything else addresses it by label, among public items
/// only.
pub open spec fn query_matches(m: ItemModel, raw: Seq<u8>) -> bool {
    if raw.len() > 0 && raw[0] == crate::DIGEST_SIGIL {
        m.digest == raw.skip(1)
    } else {
        m.label == raw && !m.private
    }
}

/// `i` is the first stored index matching the external id.
pub open spec fn first_match_at(items: Seq<Item>, raw: Seq<u8>, i: int) -> bool {
    &&& 0 <= i < items.len()
    &&& query_matches(items[i]@, raw)
    &&& forall|k: int| 0 <= k < i ==> !query_matches(#[trigger] items[k]@, raw)
}

/// `i` is the first stored index whose digest is `key`.
pub open spec fn digest_match_at(items: Seq<Item>, key: Seq<u8>, i: int) -> bool {
    &&& 0 <= i < items.len()
    &&& items[i]@.digest == key
    &&& forall|k: int| 0 <= k < i ==> (#[trigger] items[k]@).digest != key
}

/// A destructing item whose grace window has passed at `now`. An item marked
/// destruct that never got a timestamp has no window to pass and is kept.
pub open spec fn destruct_due(m: ItemModel, now: int) -> bool {
    m.destruct && (m.timestamp matches Some(t) && now - t > 10)
}

/// An item whose sunset has arrived at `now`.
pub open spec fn sunset_due(m: ItemModel, now: int) -> bool {
    m.sunset matches Some(t) && t <= now
}

/// What the sweep leaves: the items not yet due, in order.
pub open spec fn sweep_spec(ms: Seq<ItemModel>, now: int) -> Seq<ItemModel>
    decreases ms.len(),
{
    if ms.len() == 0 {
        ms
    } else {
        let rest = sweep_spec(ms.skip(1), now);
        if sunset_due(ms[0], now) {
            rest
        } else {
            seq![ms[0]] + rest
        }
    }
}

/// One read, resolved at index `i`: the outcome reflects the found item, and
/// the item is removed exactly when its destruct window has passed.
pub open spec fn read_hit(
    pre: Seq<Item>,
    post: Seq<Item>,
    raw: Seq<u8>,
    now: int,
    out: ReadOutcome,
    i: int,
) -> bool {
    &&& first_match_at(pre, raw, i)
    &&& read_outcome_matches(out, pre[i]@)
    &&& if destruct_due(pre[i]@, now) {
        post == pre.remove(i)
    } else {
        post == pre
    }
}

/// What a read returns for the item it found.
pub open spec fn read_outcome_matches(out: ReadOutcome, m: ItemModel) -> bool {
    if m.is_url {
        out matches ReadOutcome::Redirect { location, mimetype, filename } && location@
            == m.content && mimetype@ == m.mimetype && filename@ == m.filename
    } else {
        out matches ReadOutcome::Stored { content, mimetype, filename } && content@ == m.content
            && mimetype@ == m.mimetype && filename@ == m.filename
    }
}

/// Two byte buffers hold the same bytes.
pub fn bytes_eq(a: &Vec<u8>, b: &Vec<u8>) -> (r: bool)
    ensures
        r <==> a@ == b@,
{
    if a.len() != b.len() {
        return false;
    }
    let mut i: usize = 0;
    while i < a.len()
        invariant
            i <= a.len(),
            a@.len() == b@.len(),
            forall|k: int| 0 <= k < i ==> a@[k] == b@[k],
        decreases a.len() - i,
    {
        if a[i] != b[i] {
            return false;
        }
        i = i + 1;
    }
    proof {
        assert(a@ =~= b@);
    }
    true
}

/// Does this item answer to the external id, under the lookup policy?
fn query_match_exec(it: &Item, raw: &Vec<u8>) -> (r: bool)
    ensures
        r <==> query_matches(it@, raw@),
{
    if raw.len() > 0 && raw[0] == crate::DIGEST_SIGIL {
        if it.digest.len() != raw.len() - 1 {
            proof {
                assert(it@.digest.len() != raw@.skip(1).len());
            }
            return false;
        }
        let mut i: usize = 0;
        while i < it.digest.len()
            invariant
                i <= it.digest@.len(),
                it.digest@.len() == raw@.len() - 1,
                raw@.len() >= 1,
                raw@[0] == crate::DIGEST_SIGIL,
                forall|k: int| 0 <= k < i ==> it.digest@[k] == raw@[k + 1],
            decreases it.digest@.len() - i,
        {
            if it.digest[i] != raw[i + 1] {
                proof {
                    assert(raw@.skip(1)[i as int] == raw@[i + 1]);
                    assert(it@.digest[i as int] != raw@.skip(1)[i as int]);
                    assert(it@.digest != raw@.skip(1));
                }
                return false;
            }
            i = i + 1;
        }
        proof {
            assert(it@.digest =~= raw@.skip(1));
        }
        true
    } else {
        if it.private {
            false
        } else {
            bytes_eq(&it.label, raw)
        }
    }
}

/// The whole store: the persisted items and the id sequence.
pub struct Database {
    pub items: Vec<Item>,
    pub next_id: i64,
}

impl Database {
    /// The sequence counter has been started and every stored item carries a
    /// positive id.
    pub open spec fn wf(&self) -> bool {
        &&& self.next_id >= 1
        &&& forall|k: int| 0 <= k < self.items@.len() ==> (#[trigger] self.items@[k])@.id >= 1
    }

    /// An empty store, with the id sequence at its start.
    pub fn new() -> (r: Database)
        ensures
            r.items@.len() == 0,
            r.next_id == 1,
            r.wf(),
    {
        Database { items: Vec::new(), next_id: 1 }
    }

    /// Mint the next id; the counter moves even if nothing is stored after.
    pub fn get_next_id(&mut self) -> (id: i64)
        requires
            old(self).wf(),
            old(self).next_id < i64::MAX,
        ensures
            id == old(self).next_id,
            final(self).next_id == old(self).next_id + 1,
            final(self).items == old(self).items,
            final(self).wf(),
            id >= 1,
    {
        let id = self.next_id;
        self.next_id = self.next_id + 1;
        id
    }

    /// The first stored index answering to the external id, if any.
    fn find(&self, raw: &Vec<u8>) -> (r: Option<usize>)
        ensures
            match r {
                Some(i) => first_match_at(self.items@, raw@, i as int),
                None => forall|k: int|
                    0 <= k < self.items@.len() ==> !query_matches(
                        (#[trigger] self.items@[k])@,
                        raw@,
                    ),
            },
    {
        let mut i: usize = 0;
        while i < self.items.len()
            invariant
                i <= self.items@.len(),
                forall|k: int|
                    0 <= k < i ==> !query_matches((#[trigger] self.items@[k])@, raw@),
            decreases self.items@.len() - i,
        {
            if query_match_exec(&self.items[i], raw) {
                return Some(i);
            }
            i = i + 1;
        }
        None
    }

    /// Persist one item as a new row.
    pub fn add_item(&mut self, item: Item) -> (it: Item)
        requires
            old(self).wf(),
            item@.id >= 1,
        ensures
            final(self).items@ == old(self).items@.push(item),
            final(self).next_id == old(self).next_id,
            final(self).wf(),
            it@ == item@,
    {
        let copy = item.duplicate();
        self.items.push(item);
        copy
    }

    /// Resolve an external id, apply the read-triggered self-destruct, and
    /// hand back the content or the redirect target.
    pub fn read_item(&mut self, raw: &Vec<u8>, now: i64) -> (r: Result<ReadOutcome, StoreError>)
        requires
            old(self).wf(),
        ensures
            final(self).next_id == old(self).next_id,
            final(self).wf(),
            match r {
                Ok(out) => exists|i: int|
                    #[trigger] read_hit(
                        old(self).items@,
                        final(self).items@,
                        raw@,
                        now as int,
                        out,
                        i,
                    ),
                Err(e) => e == StoreError::NotFound && final(self).items@ == old(self).items@
                    && forall|k: int|
                    0 <= k < old(self).items@.len() ==> !query_matches(
                        (#[trigger] old(self).items@[k])@,
                        raw@,
                    ),
            },
    {
        let idx = match self.find(raw) {
            Some(i) => i,
            None => {
                return Err(StoreError::NotFound);
            },
        };
        let it = self.items[idx].duplicate();
        let due = it.destruct && match it.timestamp {
            Some(t) => (now as i128) - (t as i128) > 10,
            None => false,
        };
        let out = if it.is_url {
            ReadOutcome::Redirect {
                location: it.content,
                mimetype: it.mimetype,
                filename: it.filename,
            }
        } else {
            ReadOutcome::Stored {
                content: it.content,
                mimetype: it.mimetype,
                filename: it.filename,
            }
        };
        if due {
            self.items.remove(idx);
        }
        proof {
            let i = idx as int;
            assert(first_match_at(old(self).items@, raw@, i));
            assert(read_outcome_matches(out, old(self).items@[i]@));
            assert(due == destruct_due(old(self).items@[i]@, now as int));
            if due {
                assert(self.items@ == old(self).items@.remove(i));
                assert forall|k: int| 0 <= k < self.items@.len() implies (#[trigger] self.items@[k])@.id
                    >= 1 by {
                    if k < i {
                        assert(self.items@[k] == old(self).items@[k]);
                    } else {
                        assert(self.items@[k] == old(self).items@[k + 1]);
                    }
                }
            }
            assert(read_hit(old(self).items@, self.items@, raw@, now as int, out, i));
        }
        Ok(out)
    }

    /// Delete by digest-qualified external id only.
    pub fn delete_item_by_digest(&mut self, raw: &Vec<u8>) -> (r: Result<Item, StoreError>)
        requires
            old(self).wf(),
        ensures
            final(self).next_id == old(self).next_id,
            final(self).wf(),
            match r {
                Ok(it) => raw@.len() > 0 && raw@[0] == crate::DIGEST_SIGIL && exists|i: int|
                    #![auto]
                    digest_match_at(old(self).items@, raw@.skip(1), i) && it@ == old(
                        self,
                    ).items@[i]@ && final(self).items@ == old(self).items@.remove(i),
                Err(e) => e == StoreError::NotFound && final(self).items@ == old(self).items@
                    && (raw@.len() > 0 && raw@[0] == crate::DIGEST_SIGIL ==> forall|k: int|
                        0 <= k < old(self).items@.len() ==> (#[trigger] old(
                            self,
                        ).items@[k])@.digest != raw@.skip(1)),
            },
    {
        if raw.len() == 0 || raw[0] != crate::DIGEST_SIGIL {
            return Err(StoreError::NotFound);
        }
        let mut i: usize = 0;
        while i < self.items.len()
            invariant
                i <= self.items@.len(),
                raw@.len() > 0 && raw@[0] == crate::DIGEST_SIGIL,
                self.items == old(self).items,
                self.next_id == old(self).next_id,
                old(self).wf(),
                forall|k: int|
                    0 <= k < i ==> (#[trigger] self.items@[k])@.digest != raw@.skip(1),
        decreases self.items@.len() - i,
        {
            let matches_here = {
                let it = &self.items[i];
                if it.digest.len() != raw.len() - 1 {
                    proof {
                        assert(self.items@[i as int]@.digest.len() != raw@.skip(1).len());
                    }
                    false
                } else {
                    let mut j: usize = 0;
                    let mut eq = true;
                    while j < it.digest.len()
                        invariant
                            j <= it.digest@.len(),
                            it.digest@.len() == raw@.len() - 1,
                            raw@.len() >= 1,
                            eq <==> (forall|k: int|
                                0 <= k < j ==> it.digest@[k] == raw@[k + 1]),
                        decreases it.digest@.len() - j,
                    {
                        if it.digest[j] != raw[j + 1] {
                            eq = false;
                            proof {
                                assert(it.digest@[j as int] != raw@[j as int + 1]);
                            }
                        }
                        j = j + 1;
                    }
                    proof {
                        if eq {
                            assert(it.digest@ =~= raw@.skip(1));
                        } else {
                            assert(it.digest@ != raw@.skip(1)) by {
                                let k = choose|k: int|
                                    0 <= k < it.digest@.len() && it.digest@[k] != raw@[k + 1];
                                assert(raw@.skip(1)[k] == raw@[k + 1]);
                            }
                        }
                    }
                    eq
                }
            };
            if matches_here {
                let removed = self.items.remove(i);
                proof {
                    let ii = i as int;
                    assert(digest_match_at(old(self).items@, raw@.skip(1), ii));
                    assert(self.items@ == old(self).items@.remove(ii));
                    assert forall|k: int| 0 <= k < self.items@.len() implies (
                    #[trigger] self.items@[k])@.id >= 1 by {
                        if k < ii {
                            assert(self.items@[k] == old(self).items@[k]);
                        } else {
                            assert(self.items@[k] == old(self).items@[k + 1]);
                        }
                    }
                }
                return Ok(removed);
            }
            i = i + 1;
        }
        Err(StoreError::NotFound)
    }

    /// Replace the stored row that carries this item's id.
    pub fn update_item(&mut self, item: Item) -> (r: Result<Item, StoreError>)
        requires
            old(self).wf(),
            item@.id >= 1,
        ensures
            final(self).next_id == old(self).next_id,
            final(self).wf(),
            match r {
                Ok(it) => it@ == item@ && exists|i: int|
                    #![auto]
                    0 <= i < old(self).items@.len() && old(self).items@[i]@.id == item@.id && (
                    forall|k: int|
                        0 <= k < i ==> (#[trigger] old(self).items@[k])@.id != item@.id)
                        && models_of(final(self).items@) == models_of(old(self).items@).update(
                        i,
                        item@,
                    ),
                Err(e) => e == StoreError::NotFound && final(self).items@ == old(self).items@
                    && forall|k: int|
                    0 <= k < old(self).items@.len() ==> (#[trigger] old(self).items@[k])@.id
                        != item@.id,
            },
    {
        let mut i: usize = 0;
        while i < self.items.len()
            invariant
                i <= self.items@.len(),
                self.items == old(self).items,
                self.next_id == old(self).next_id,
                old(self).wf(),
                item@.id >= 1,
                forall|k: int| 0 <= k < i ==> (#[trigger] self.items@[k])@.id != item@.id,
        decreases self.items@.len() - i,
        {
            if self.items[i].id == item.id {
                let copy = item.duplicate();
                self.items.remove(i);
                self.items.insert(i, item);
                proof {
                    assert(models_of(self.items@) =~= models_of(old(self).items@).update(
                        i as int,
                        copy@,
                    ));
                    assert forall|k: int| 0 <= k < self.items@.len() implies (
                    #[trigger] self.items@[k])@.id >= 1 by {
                        assert(models_of(self.items@)[k] == self.items@[k]@);
                        assert(models_of(old(self).items@)[k] == old(self).items@[k]@);
                    }
                }
                return Ok(copy);
            }
            i = i + 1;
        }
        Err(StoreError::NotFound)
    }

    /// Delete every item whose sunset has arrived; report how many went.
    pub fn sunset_items(&mut self, now: i64) -> (count: usize)
        requires
            old(self).wf(),
        ensures
            final(self).next_id == old(self).next_id,
            final(self).wf(),
            models_of(final(self).items@) == sweep_spec(models_of(old(self).items@), now as int),
            count == old(self).items@.len() - final(self).items@.len(),
    {
        let ghost before = models_of(self.items@);
        let mut kept: Vec<Item> = Vec::new();
        let mut i: usize = 0;
        proof {
            assert(models_of(self.items@).take(0) =~= Seq::<ItemModel>::empty());
            assert(models_of(kept@) =~= sweep_spec(before.take(0), now as int));
        }
        while i < self.items.len()
            invariant
                i <= self.items@.len(),
                self.items == old(self).items,
                self.next_id == old(self).next_id,
                old(self).wf(),
                before == models_of(self.items@),
                models_of(kept@) == sweep_spec(before.take(i as int), now as int),
                kept@.len() <= i,
                forall|k: int| 0 <= k < kept@.len() ==> (#[trigger] kept@[k])@.id >= 1,
            decreases self.items@.len() - i,
        {
            let it = &self.items[i];
            let due = match it.sunset {
                Some(t) => t <= now,
                None => false,
            };
            proof {
                assert(before.take(i + 1) =~= before.take(i as int).push(before[i as int]));
                lemma_sweep_snoc(before.take(i as int), before[i as int], now as int);
                assert(before[i as int] == self.items@[i as int]@);
            }
            if !due {
                let copy = self.items[i].duplicate();
                kept.push(copy);
                proof {
                    assert(models_of(kept@) =~= sweep_spec(before.take(i + 1), now as int));
                }
            } else {
                proof {
                    assert(models_of(kept@) =~= sweep_spec(before.take(i + 1), now as int));
                }
            }
            i = i + 1;
        }
        proof {
            assert(before.take(self.items@.len() as int) =~= before);
        }
        let count = self.items.len() - kept.len();
        self.items = kept;
        count
    }
}

/// The seed of a create request: a fresh item stamped with its id and the
/// moment of creation.
pub open spec fn seeded(id: int, now: int) -> ItemModel {
    ItemModel { timestamp: Some(now), ..crate::item::fresh_item(id) }
}

impl Database {
    /// Allocate an id, build the item from the fields, and persist it. The id
    /// is consumed even when the request is rejected.
    pub fn create(&mut self, fields: &Vec<RawField>, salt: &Vec<u8>, now: i64) -> (r: Result<
        Item,
        IngestError,
    >)
        requires
            old(self).wf(),
            old(self).next_id < i64::MAX,
        ensures
            final(self).wf(),
            final(self).next_id == old(self).next_id + 1,
            match r {
                Ok(it) => it@.id == old(self).next_id && models_of(final(self).items@)
                    == models_of(old(self).items@).push(it@) && exists|
                    sniffs: Seq<Option<Seq<u8>>>,
                |
                    sniffs.len() == fields@.len() && #[trigger] crate::ingest::ingest_spec(
                        seeded(old(self).next_id as int, now as int),
                        crate::ingest::views_of(fields@),
                        sniffs,
                        salt@,
                        now as int,
                    ) == Ok::<ItemModel, IngestError>(it@),
                Err(e) => final(self).items@ == old(self).items@ && exists|
                    sniffs: Seq<Option<Seq<u8>>>,
                |
                    sniffs.len() == fields@.len() && #[trigger] crate::ingest::ingest_spec(
                        seeded(old(self).next_id as int, now as int),
                        crate::ingest::views_of(fields@),
                        sniffs,
                        salt@,
                        now as int,
                    ) == Err::<ItemModel, IngestError>(e),
            },
    {
        let id = self.get_next_id();
        let mut seed = Item::new_with_id(id);
        seed.timestamp = Some(now);
        proof {
            assert(seed@ =~= seeded(id as int, now as int));
        }
        match crate::ingest::ingest(seed, fields, salt, now) {
            Ok(it) => {
                let stored = it.duplicate();
                self.items.push(stored);
                proof {
                    assert(models_of(self.items@) =~= models_of(old(self).items@).push(it@));
                    assert forall|k: int| 0 <= k < self.items@.len() implies (
                    #[trigger] self.items@[k])@.id >= 1 by {
                        assert(models_of(self.items@)[k] == self.items@[k]@);
                        if k < old(self).items@.len() {
                            assert(models_of(old(self).items@)[k] == old(self).items@[k]@);
                        }
                    }
                }
                Ok(it)
            },
            Err(e) => Err(e),
        }
    }

    /// Load the addressed item, re-run ingestion seeded from it, and persist
    /// the merged result under the same id.
    pub fn update(&mut self, raw: &Vec<u8>, fields: &Vec<RawField>, salt: &Vec<u8>, now: i64) -> (r:
        Result<Item, StoreError>)
        requires
            old(self).wf(),
        ensures
            final(self).wf(),
            final(self).next_id == old(self).next_id,
            match r {
                Ok(it) => exists|i: int|
                    #[trigger] first_match_at(old(self).items@, raw@, i) && it@.id == old(
                        self,
                    ).items@[i]@.id && models_of(final(self).items@) == models_of(
                        old(self).items@,
                    ).update(i, it@) && exists|sniffs: Seq<Option<Seq<u8>>>|
                        sniffs.len() == fields@.len() && #[trigger] crate::ingest::ingest_spec(
                            old(self).items@[i]@,
                            crate::ingest::views_of(fields@),
                            sniffs,
                            salt@,
                            now as int,
                        ) == Ok::<ItemModel, IngestError>(it@),
                Err(e) => final(self).items@ == old(self).items@ && match e {
                    StoreError::NotFound => forall|k: int|
                        0 <= k < old(self).items@.len() ==> !query_matches(
                            (#[trigger] old(self).items@[k])@,
                            raw@,
                        ),
                    StoreError::Rejected(ie) => exists|i: int|
                        #[trigger] first_match_at(old(self).items@, raw@, i) && exists|
                            sniffs: Seq<Option<Seq<u8>>>,
                        |
                            sniffs.len() == fields@.len() && #[trigger] crate::ingest::ingest_spec(
                                old(self).items@[i]@,
                                crate::ingest::views_of(fields@),
                                sniffs,
                                salt@,
                                now as int,
                            ) == Err::<ItemModel, IngestError>(ie),
                },
            },
    {
        let idx = match self.find(raw) {
            Some(i) => i,
            None => {
                return Err(StoreError::NotFound);
            },
        };
        let seed = self.items[idx].duplicate();
        match crate::ingest::ingest(seed, fields, salt, now) {
            Ok(it) => {
                let stored = it.duplicate();
                self.items.remove(idx);
                self.items.insert(idx, stored);
                proof {
                    assert(models_of(self.items@) =~= models_of(old(self).items@).update(
                        idx as int,
                        it@,
                    ));
                    assert forall|k: int| 0 <= k < self.items@.len() implies (
                    #[trigger] self.items@[k])@.id >= 1 by {
                        assert(models_of(self.items@)[k] == self.items@[k]@);
                        assert(models_of(old(self).items@)[k] == old(self).items@[k]@);
                    }
                }
                Ok(it)
            },
            Err(e) => Err(StoreError::Rejected(e)),
        }
    }
}

impl Database {
    /// Resolve an external id under the lookup policy and hand back a copy of
    /// the first matching item, without any lifecycle side effect.
    pub fn get_item(&self, raw: &Vec<u8>) -> (r: Result<Item, StoreError>)
        ensures
            match r {
                Ok(it) => exists|i: int|
                    #[trigger] first_match_at(self.items@, raw@, i) && it@ == self.items@[i]@,
                Err(e) => e == StoreError::NotFound && forall|k: int|
                    0 <= k < self.items@.len() ==> !query_matches(
                        (#[trigger] self.items@[k])@,
                        raw@,
                    ),
            },
    {
        match self.find(raw) {
            Some(i) => {
                let it = self.items[i].duplicate();
                proof {
                    assert(first_match_at(self.items@, raw@, i as int));
                }
                Ok(it)
            },
            None => Err(StoreError::NotFound),
        }
    }

    /// Delete the stored row carrying this item's id; used by the
    /// read-triggered self-destruct. A missing row is a benign not-found.
    pub fn delete_item(&mut self, item: &Item) -> (r: Result<Item, StoreError>)
        requires
            old(self).wf(),
        ensures
            final(self).next_id == old(self).next_id,
            final(self).wf(),
            match r {
                Ok(it) => exists|i: int|
                    #![auto]
                    0 <= i < old(self).items@.len() && old(self).items@[i]@.id == item@.id && (
                    forall|k: int|
                        0 <= k < i ==> (#[trigger] old(self).items@[k])@.id != item@.id) && it@
                        == old(self).items@[i]@ && final(self).items@ == old(self).items@.remove(
                        i,
                    ),
                Err(e) => e == StoreError::NotFound && final(self).items@ == old(self).items@
                    && forall|k: int|
                    0 <= k < old(self).items@.len() ==> (#[trigger] old(self).items@[k])@.id
                        != item@.id,
            },
    {
        let mut i: usize = 0;
        while i < self.items.len()
            invariant
                i <= self.items@.len(),
                self.items == old(self).items,
                self.next_id == old(self).next_id,
                old(self).wf(),
                forall|k: int| 0 <= k < i ==> (#[trigger] self.items@[k])@.id != item@.id,
            decreases self.items@.len() - i,
        {
            if self.items[i].id == item.id {
                let removed = self.items.remove(i);
                proof {
                    let ii = i as int;
                    assert forall|k: int| 0 <= k < self.items@.len() implies (
                    #[trigger] self.items@[k])@.id >= 1 by {
                        if k < ii {
                            assert(self.items@[k] == old(self).items@[k]);
                        } else {
                            assert(self.items@[k] == old(self).items@[k + 1]);
                        }
                    }
                }
                return Ok(removed);
            }
            i = i + 1;
        }
        Err(StoreError::NotFound)
    }
}

// ---------------------------------------------------------------------------
// Laws of the lifecycle.
// ---------------------------------------------------------------------------

/// A private item is invisible to label lookup, even when the label matches
/// exactly, yet always answers to its digest-qualified id. (A stored label
/// never starts with the digest sigil: a client label is normalized behind
/// the label sigil, and a derived label uses the URL-safe alphabet.)
pub proof fn lemma_private_item_lookup(m: ItemModel)
    requires
        m.private,
        m.label.len() == 0 || m.label[0] != crate::DIGEST_SIGIL,
    ensures
        !query_matches(m, m.label),
        query_matches(m, seq![crate::DIGEST_SIGIL] + m.digest),
{
    assert((seq![crate::DIGEST_SIGIL] + m.digest)[0] == crate::DIGEST_SIGIL);
    assert((seq![crate::DIGEST_SIGIL] + m.digest).skip(1) =~= m.digest);
}

/// Self-destruct timing: a read of the only matching item within the grace
/// window leaves the store as it was; a read past the window removes the item,
/// and afterwards nothing matches that external id any more.
pub proof fn lemma_destruct_read(items: Seq<Item>, raw: Seq<u8>, now: int, i: int)
    requires
        first_match_at(items, raw, i),
        forall|k: int|
            0 <= k < items.len() && k != i ==> !query_matches((#[trigger] items[k])@, raw),
        items[i]@.destruct,
        items[i]@.timestamp is Some,
    ensures
        !(now - items[i]@.timestamp->0 > 10) ==> !destruct_due(items[i]@, now),
        now - items[i]@.timestamp->0 > 10 ==> destruct_due(items[i]@, now) && (forall|k: int|
            0 <= k < items.remove(i).len() ==> !query_matches(
                (#[trigger] items.remove(i)[k])@,
                raw,
            )),
{
    if now - items[i]@.timestamp->0 > 10 {
        assert forall|k: int| 0 <= k < items.remove(i).len() implies !query_matches(
            (#[trigger] items.remove(i)[k])@,
            raw,
        ) by {
            if k < i {
                assert(items.remove(i)[k] == items[k]);
            } else {
                assert(items.remove(i)[k] == items[k + 1]);
            }
        }
    }
}

/// The sweep at time `now` leaves no item whose sunset has passed, keeps
/// every item whose sunset has not (or that has none), and a second run right
/// after removes nothing.
pub proof fn lemma_sweep(ms: Seq<ItemModel>, now: int)
    ensures
        forall|k: int|
            0 <= k < sweep_spec(ms, now).len() ==> !sunset_due(
                #[trigger] sweep_spec(ms, now)[k],
                now,
            ),
        forall|k: int|
            0 <= k < ms.len() && !sunset_due(#[trigger] ms[k], now) ==> sweep_spec(
                ms,
                now,
            ).contains(ms[k]),
        sweep_spec(sweep_spec(ms, now), now) == sweep_spec(ms, now),
    decreases ms.len(),
{
    if ms.len() == 0 {
    } else {
        lemma_sweep(ms.skip(1), now);
        let rest = sweep_spec(ms.skip(1), now);
        if sunset_due(ms[0], now) {
            assert forall|k: int| 0 <= k < ms.len() && !sunset_due(#[trigger] ms[k], now) implies
                sweep_spec(ms, now).contains(ms[k]) by {
                assert(ms.skip(1)[k - 1] == ms[k]);
                assert(rest.contains(ms[k]));
            }
        } else {
            let whole = seq![ms[0]] + rest;
            assert(whole[0] == ms[0]);
            assert forall|k: int| 0 <= k < whole.len() implies !sunset_due(
                #[trigger] whole[k],
                now,
            ) by {
                if k > 0 {
                    assert(whole[k] == rest[k - 1]);
                }
            }
            assert forall|k: int| 0 <= k < ms.len() && !sunset_due(#[trigger] ms[k], now) implies
                whole.contains(ms[k]) by {
                if k == 0 {
                    assert(whole[0] == ms[0]);
                } else {
                    assert(ms.skip(1)[k - 1] == ms[k]);
                    assert(rest.contains(ms[k]));
                    let w = choose|w: int| 0 <= w < rest.len() && rest[w] == ms[k];
                    assert(whole[w + 1] == ms[k]);
                }
            }
            assert(sweep_spec(whole, now) =~= whole) by {
                assert(whole.skip(1) =~= rest);
            }
        }
    }
}

/// Appending one item to a sweep keeps it exactly when it is not yet due.
pub proof fn lemma_sweep_snoc(ms: Seq<ItemModel>, m: ItemModel, now: int)
    ensures
        sweep_spec(ms.push(m), now) == sweep_spec(ms, now) + (if sunset_due(m, now) {
            Seq::<ItemModel>::empty()
        } else {
            seq![m]
        }),
    decreases ms.len(),
{
    if ms.len() == 0 {
        assert(ms.push(m)[0] == m);
        assert(ms.push(m).skip(1) =~= ms);
        if sunset_due(m, now) {
            assert(sweep_spec(ms.push(m), now) =~= sweep_spec(ms, now));
        } else {
            assert(sweep_spec(ms.push(m), now) =~= sweep_spec(ms, now) + seq![m]);
        }
    } else {
        assert(ms.push(m)[0] == ms[0]);
        assert(ms.push(m).skip(1) =~= ms.skip(1).push(m));
        lemma_sweep_snoc(ms.skip(1), m, now);
        if sunset_due(ms[0], now) {
        } else {
            assert(sweep_spec(ms.push(m), now) =~= sweep_spec(ms, now) + (if sunset_due(m, now) {
                Seq::<ItemModel>::empty()
            } else {
                seq![m]
            }));
        }
    }
}

} // verus!
