//! The plates found so far, each filed once under its own text.

use vstd::prelude::*;
use vstd::hash_map::StringHashMap;
use crate::order::{lemma_sorted_distinct, lex_lt, sort_strings, strictly_ascending, texts};
use crate::record::{Record, RecordView};

verus! {

/// A store of records, one for each plate: a later record of a plate takes
/// the place of the earlier one.
pub struct RecordStore {
    /// For each plate, the place of its record in `records`.
    index: StringHashMap<usize>,
    /// The records, in the order in which their plates first came.
    records: Vec<Record>,
}

impl View for RecordStore {
    type V = Map<Seq<char>, RecordView>;

    closed spec fn view(&self) -> Map<Seq<char>, RecordView> {
        Map::new(
            |k: Seq<char>| self.index@.contains_key(k),
            |k: Seq<char>| self.records@[self.index@[k] as int]@,
        )
    }
}

impl RecordStore {
    #[verifier::type_invariant]
    spec fn consistent(self) -> bool {
        &&& self.index@.dom().finite()
        &&& self.index@.dom().len() == self.records@.len()
        &&& forall|k: Seq<char>| #[trigger]
            self.index@.contains_key(k) ==> self.index@[k] < self.records@.len()
                && self.records@[self.index@[k] as int]@.identifier == k
        &&& forall|i: int|
            0 <= i < self.records@.len() ==> self.index@.contains_key(
                #[trigger] self.records@[i]@.identifier,
            ) && self.index@[self.records@[i]@.identifier] == i
    }

    /// An empty store.
    pub fn new() -> (store: Self)
        ensures
            store@ == Map::<Seq<char>, RecordView>::empty(),
    {
        let store = RecordStore { index: StringHashMap::new(), records: Vec::new() };
        assert(store@ =~= Map::<Seq<char>, RecordView>::empty());
        store
    }

    /// Files `record` under its plate, in place of any record that was
    /// there for the same plate.
    pub fn insert(&mut self, record: Record)
        ensures
            final(self)@ == old(self)@.insert(record@.identifier, record@),
    {
        proof {
            use_type_invariant(&*self);
        }
        let mut taken = RecordStore::new();
        std::mem::swap(self, &mut taken);
        let RecordStore { mut index, mut records } = taken;
        let id = record.identifier().clone();
        let ghost before = taken@;
        let found = match index.get(id.as_str()) {
            Some(place) => Some(*place),
            None => None,
        };
        match found {
            Some(place) => {
                records.set(place, record);
            },
            None => {
                index.insert(id, records.len());
                records.push(record);
            },
        }
        *self = RecordStore { index, records };
        assert(self@ =~= before.insert(record@.identifier, record@));
    }

    /// The number of plates on file.
    pub fn len(&self) -> (n: usize)
        ensures
            self@.dom().finite(),
            n == self@.len(),
    {
        proof {
            use_type_invariant(self);
            assert(self@.dom() =~= self.index@.dom());
        }
        self.records.len()
    }

    /// Whether `identifier` is on file.
    pub fn contains(&self, identifier: &str) -> (found: bool)
        ensures
            found == self@.contains_key(identifier@),
    {
        self.index.contains_key(identifier)
    }

    /// The record on file for `identifier`, if there is one.
    pub fn get(&self, identifier: &str) -> (record: Option<&Record>)
        ensures
            match record {
                Some(r) => self@.contains_key(identifier@) && r@ == self@[identifier@]
                    && r@.identifier == identifier@,
                None => !self@.contains_key(identifier@),
            },
    {
        proof {
            use_type_invariant(self);
        }
        match self.index.get(identifier) {
            Some(place) => Some(&self.records[*place]),
            None => None,
        }
    }

    /// The plates on file in ascending order: each once, and each strictly
    /// before the next. The store is left as it is.
    pub fn keys_sorted(&self) -> (keys: Vec<String>)
        ensures
            strictly_ascending(texts(keys@)),
            forall|k: Seq<char>| self@.contains_key(k) <==> texts(keys@).contains(k),
            keys@.len() == self@.len(),
    {
        proof {
            use_type_invariant(self);
            assert(self@.dom() =~= self.index@.dom());
        }
        let mut keys: Vec<String> = Vec::new();
        let mut i: usize = 0;
        while i < self.records.len()
            invariant
                i <= self.records@.len(),
                keys@.len() == i,
                forall|j: int| 0 <= j < i ==> (#[trigger] keys@[j])@ == self.records@[j]@.identifier,
            decreases self.records@.len() - i,
        {
            keys.push(self.records[i].identifier().clone());
            i = i + 1;
        }
        let ghost unsorted = texts(keys@);
        proof {
            assert forall|a: int, b: int|
                0 <= a < unsorted.len() && 0 <= b < unsorted.len() && a != b implies unsorted[a]
                != unsorted[b] by {
                assert(self.index@[self.records@[a]@.identifier] == a);
                assert(self.index@[self.records@[b]@.identifier] == b);
            }
            assert forall|k: Seq<char>| self@.contains_key(k) <==> unsorted.contains(k) by {
                if self@.contains_key(k) {
                    assert(unsorted[self.index@[k] as int] == k);
                }
                if unsorted.contains(k) {
                    let j = choose|j: int| 0 <= j < unsorted.len() && unsorted[j] == k;
                    assert(self.records@[j]@.identifier == k);
                }
            }
        }
        sort_strings(&mut keys);
        proof {
            lemma_sorted_distinct(unsorted, texts(keys@));
        }
        keys
    }
}

/// How many plates of a store are listed at most.
pub const PREVIEW_LIMIT: usize = 10;

/// The head of a store's listing.
#[derive(Debug)]
pub struct Preview {
    /// How many plates are on file.
    pub total: usize,
    /// The first plates in ascending order, at most [`PREVIEW_LIMIT`].
    pub shown: Vec<String>,
    /// How many plates follow those shown; nothing where fewer than
    /// [`PREVIEW_LIMIT`] are on file.
    pub more: Option<usize>,
}

/// The head of the listing of `store`: how many plates are on file, the
/// first of them in ascending order, and how many follow where the limit
/// was reached.
pub fn preview(store: &RecordStore) -> (head: Preview)
    ensures
        store@.dom().finite(),
        head.total == store@.len(),
        head.shown@.len() == if head.total < PREVIEW_LIMIT {
            head.total
        } else {
            PREVIEW_LIMIT
        },
        strictly_ascending(texts(head.shown@)),
        forall|i: int|
            0 <= i < head.shown@.len() ==> store@.contains_key(#[trigger] texts(head.shown@)[i]),
        forall|k: Seq<char>, i: int|
            store@.contains_key(k) && !texts(head.shown@).contains(k) && 0 <= i
                < head.shown@.len() ==> #[trigger] lex_lt(texts(head.shown@)[i], k),
        head.more == if head.total >= PREVIEW_LIMIT {
            Some((head.total - PREVIEW_LIMIT) as usize)
        } else {
            None::<usize>
        },
{
    let total = store.len();
    let mut shown = store.keys_sorted();
    let ghost all = texts(shown@);
    shown.truncate(PREVIEW_LIMIT);
    let more = if total >= PREVIEW_LIMIT {
        Some(total - PREVIEW_LIMIT)
    } else {
        None
    };
    proof {
        let head = texts(shown@);
        assert forall|i: int| 0 <= i < head.len() implies head[i] == all[i] by {}
        assert forall|i: int| 0 <= i < head.len() implies store@.contains_key(
            #[trigger] head[i],
        ) by {
            assert(all.contains(all[i]));
        }
        assert forall|k: Seq<char>, i: int|
            store@.contains_key(k) && !head.contains(k) && 0 <= i
                < head.len() implies #[trigger] lex_lt(head[i], k) by {
            assert(all.contains(k));
            let j = choose|j: int| 0 <= j < all.len() && all[j] == k;
            if j < head.len() {
                assert(head[j] == k);
            }
        }
    }
    Preview { total, shown, more }
}

/// Filing a plate a second time leaves one record for it, the later one:
/// the store is as if the earlier record had never been filed, and holds no
/// more plates than after the first filing.
pub proof fn law_last_write_wins(
    store: Map<Seq<char>, RecordView>,
    earlier: RecordView,
    later: RecordView,
)
    requires
        store.dom().finite(),
        earlier.identifier == later.identifier,
    ensures
        store.insert(earlier.identifier, earlier).insert(later.identifier, later) == store.insert(
            later.identifier,
            later,
        ),
        store.insert(earlier.identifier, earlier).insert(later.identifier, later)[later.identifier]
            == later,
        store.insert(earlier.identifier, earlier).insert(later.identifier, later).len()
            == store.insert(earlier.identifier, earlier).len(),
{
    let once = store.insert(earlier.identifier, earlier);
    let twice = once.insert(later.identifier, later);
    assert(twice =~= store.insert(later.identifier, later));
    assert(twice.dom() =~= once.dom());
}

} // verus!
