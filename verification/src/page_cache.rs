//! The bookkeeping of the local page cache: which pages it holds, and which page goes next.

use vstd::prelude::*;

use crate::config::CachePolicy;
use crate::text::same;

verus! {

/// A page of an object: the repository and the path of the object, and the page's offset.
pub struct PageKey {
    pub repository: String,
    pub path: String,
    pub offset: u64,
}

/// What the key of a page holds.
pub struct KeyModel {
    pub repository: Seq<char>,
    pub path: Seq<char>,
    pub offset: u64,
}

impl View for PageKey {
    type V = KeyModel;

    open spec fn view(&self) -> KeyModel {
        KeyModel { repository: self.repository@, path: self.path@, offset: self.offset }
    }
}

impl PageKey {
    fn is(&self, other: &PageKey) -> (result: bool)
        ensures
            result == (self@ == other@),
    {
        self.offset == other.offset && same(self.repository.as_str(), other.repository.as_str())
            && same(self.path.as_str(), other.path.as_str())
    }

    /// The same key again.
    pub fn copy(&self) -> (key: PageKey)
        ensures
            key@ == self@,
    {
        PageKey {
            repository: self.repository.clone(),
            path: self.path.clone(),
            offset: self.offset,
        }
    }
}

/// The keys by what they hold.
pub open spec fn key_models(keys: Seq<PageKey>) -> Seq<KeyModel> {
    keys.map_values(|key: PageKey| key@)
}

/// A page that the cache holds.
#[derive(Clone, Copy, Debug, PartialEq, Eq, Structural)]
pub struct PageEntry {
    pub size: u64,
    pub protected: bool,
}

/// What the cache knows: the pages that it holds, the two queues of their keys from the page
/// that goes first to the page that goes last, and the number of bytes that it counts.
pub struct CacheModel {
    pub entries: Map<KeyModel, PageEntry>,
    pub probationary: Seq<KeyModel>,
    pub protected: Seq<KeyModel>,
    pub bytes: int,
}

/// A sequence without the first occurrence of an element.
pub open spec fn without_first(keys: Seq<KeyModel>, key: KeyModel) -> Seq<KeyModel>
    decreases keys.len(),
{
    if keys.len() == 0 {
        keys
    } else if keys[0] == key {
        keys.skip(1)
    } else {
        seq![keys[0]] + without_first(keys.skip(1), key)
    }
}

/// The size of a page, if the cache holds it.
pub open spec fn page_size(entries: Map<KeyModel, PageEntry>, key: KeyModel) -> int {
    if entries.contains_key(key) {
        entries[key].size as int
    } else {
        0
    }
}

/// The number of bytes in the pages of a queue.
pub open spec fn queue_bytes(queue: Seq<KeyModel>, entries: Map<KeyModel, PageEntry>) -> int
    decreases queue.len(),
{
    if queue.len() == 0 {
        0
    } else {
        page_size(entries, queue[0]) + queue_bytes(queue.skip(1), entries)
    }
}

/// The entries after a page was marked as protected or not.
pub open spec fn marked(
    entries: Map<KeyModel, PageEntry>,
    key: KeyModel,
    protected: bool,
) -> Map<KeyModel, PageEntry> {
    if entries.contains_key(key) {
        entries.insert(key, PageEntry { size: entries[key].size, protected })
    } else {
        entries
    }
}

impl CacheModel {
    /// The cache after protected pages went back to the probationary queue, the first ones
    /// first, until the protected ones take no more bytes than the limit.
    pub open spec fn demoted(self, limit: int) -> CacheModel
        decreases self.protected.len(),
    {
        if self.protected.len() == 0 || queue_bytes(self.protected, self.entries) <= limit {
            self
        } else {
            CacheModel {
                entries: marked(self.entries, self.protected[0], false),
                probationary: self.probationary.push(self.protected[0]),
                protected: self.protected.skip(1),
                ..self
            }.demoted(limit)
        }
    }

    /// The cache after a page was used: its key goes to the end of a queue. Under the segmented
    /// policy it becomes protected; a protected page may push others back.
    pub open spec fn touched(self, key: KeyModel, policy: CachePolicy, limit: int) -> CacheModel {
        if !self.entries.contains_key(key) {
            self
        } else {
            let probationary = without_first(self.probationary, key);
            let protected = without_first(self.protected, key);
            if policy == CachePolicy::Slru || self.entries[key].protected {
                CacheModel {
                    entries: marked(self.entries, key, true),
                    probationary,
                    protected: protected.push(key),
                    ..self
                }.demoted(limit)
            } else {
                CacheModel { probationary: probationary.push(key), protected, ..self }
            }
        }
    }

    /// The cache without the page that goes next, and the key of that page. Probationary pages
    /// go before protected ones.
    pub open spec fn popped(self) -> (CacheModel, KeyModel) {
        if self.probationary.len() > 0 {
            (
                CacheModel { probationary: self.probationary.skip(1), ..self },
                self.probationary[0],
            )
        } else {
            (CacheModel { protected: self.protected.skip(1), ..self }, self.protected[0])
        }
    }

    /// The cache after a page left it.
    pub open spec fn dropped(self, key: KeyModel) -> CacheModel {
        let size = self.entries[key].size;
        CacheModel {
            entries: self.entries.remove(key),
            bytes: if self.bytes > size {
                self.bytes - size
            } else {
                0
            },
            ..self
        }
    }

    /// The cache after pages left it until it counts no more than `max_size` bytes, and the keys
    /// of these pages behind those in `evicted`.
    pub open spec fn evicted(self, max_size: int, evicted: Seq<KeyModel>) -> (
        CacheModel,
        Seq<KeyModel>,
    )
        decreases self.probationary.len() + self.protected.len(),
    {
        if self.bytes <= max_size || self.probationary.len() + self.protected.len() == 0 {
            (self, evicted)
        } else {
            let (rest, candidate) = self.popped();
            if rest.entries.contains_key(candidate) {
                rest.dropped(candidate).evicted(max_size, evicted.push(candidate))
            } else {
                rest.evicted(max_size, evicted)
            }
        }
    }

    /// The cache with a page at the end of the probationary queue.
    pub open spec fn added(self, key: KeyModel, size: u64) -> CacheModel {
        let previous = page_size(self.entries, key);
        CacheModel {
            entries: self.entries.insert(key, PageEntry { size, protected: false }),
            probationary: self.probationary.push(key),
            bytes: (if self.bytes > previous {
                self.bytes - previous
            } else {
                0
            }) + size,
            ..self
        }
    }

    /// The cache after a page was stored, and the keys of the pages that had to leave. A page
    /// that is larger than the whole cache is not stored.
    pub open spec fn stored(self, key: KeyModel, size: u64, max_size: int) -> (
        CacheModel,
        Seq<KeyModel>,
    ) {
        if size > max_size {
            (self, Seq::empty())
        } else {
            self.added(key, size).evicted(max_size, Seq::empty())
        }
    }
}

/// A page that was found on disk.
pub struct FoundPage {
    pub key: PageKey,
    pub size: u64,
}

/// The keys and sizes of pages.
pub open spec fn found_models(pages: Seq<FoundPage>) -> Seq<(KeyModel, u64)> {
    pages.map_values(|page: FoundPage| (page.key@, page.size))
}

impl CacheModel {
    /// The cache without pages.
    pub open spec fn empty() -> CacheModel {
        CacheModel {
            entries: Map::empty(),
            probationary: Seq::empty(),
            protected: Seq::empty(),
            bytes: 0,
        }
    }

    /// The cache after a page that was found on disk was taken over, and the keys of the pages that
    /// have to leave. A page that is too large to be counted leaves itself; one that the cache has
    /// already changes nothing.
    pub open spec fn taken(self, key: KeyModel, size: u64, max_size: int) -> (
        CacheModel,
        Seq<KeyModel>,
    ) {
        if self.entries.contains_key(key) {
            (self, Seq::empty())
        } else if size > max_size || self.bytes + size > u64::MAX {
            (self, seq![key])
        } else {
            self.stored(key, size, max_size)
        }
    }

    /// The cache after the pages that were found on disk were taken over one after the other, and
    /// the keys of the pages that had to leave.
    pub open spec fn restored(self, pages: Seq<(KeyModel, u64)>, max_size: int) -> (
        CacheModel,
        Seq<KeyModel>,
    )
        decreases pages.len(),
    {
        if pages.len() == 0 {
            (self, Seq::empty())
        } else {
            let (before, gone) = self.restored(pages.drop_last(), max_size);
            let (next, more) = before.taken(pages.last().0, pages.last().1, max_size);
            (next, gone + more)
        }
    }
}

/// The map from keys to the pages at the same positions.
pub open spec fn page_map(keys: Seq<KeyModel>, pages: Seq<PageEntry>) -> Map<KeyModel, PageEntry> {
    Map::new(|key: KeyModel| keys.contains(key), |key: KeyModel| pages[keys.index_of(key)])
}

proof fn lemma_page_at(keys: Seq<KeyModel>, pages: Seq<PageEntry>, i: int)
    requires
        keys.no_duplicates(),
        0 <= i < keys.len(),
    ensures
        page_map(keys, pages).contains_key(keys[i]),
        page_map(keys, pages)[keys[i]] == pages[i],
{
    assert(keys.contains(keys[i]));
    let at = keys.index_of(keys[i]);
    assert(keys[at] == keys[i]);
}

proof fn lemma_push_page(
    keys: Seq<KeyModel>,
    pages: Seq<PageEntry>,
    key: KeyModel,
    page: PageEntry,
)
    requires
        keys.no_duplicates(),
        keys.len() == pages.len(),
        !keys.contains(key),
    ensures
        keys.push(key).no_duplicates(),
        page_map(keys.push(key), pages.push(page)) == page_map(keys, pages).insert(key, page),
{
    let grown = keys.push(key);
    let all = pages.push(page);
    assert(page_map(grown, all) =~= page_map(keys, pages).insert(key, page)) by {
        lemma_page_at(grown, all, keys.len() as int);
        assert forall|k: KeyModel| grown.contains(k) == (k == key || keys.contains(k)) by {
            if keys.contains(k) {
                assert(grown[keys.index_of(k)] == k);
            }
            if k == key {
                assert(grown[keys.len() as int] == k);
            }
        }
        assert forall|k: KeyModel| keys.contains(k) && k != key implies page_map(grown, all)[k]
            == page_map(keys, pages)[k] by {
            let i = keys.index_of(k);
            assert(grown[i] == k);
            lemma_page_at(grown, all, i);
        }
    }
}

proof fn lemma_set_page(keys: Seq<KeyModel>, pages: Seq<PageEntry>, i: int, page: PageEntry)
    requires
        keys.no_duplicates(),
        keys.len() == pages.len(),
        0 <= i < keys.len(),
    ensures
        page_map(keys, pages.update(i, page)) == page_map(keys, pages).insert(keys[i], page),
{
    let all = pages.update(i, page);
    lemma_page_at(keys, all, i);
    assert(page_map(keys, all) =~= page_map(keys, pages).insert(keys[i], page)) by {
        assert forall|k: KeyModel| keys.contains(k) && k != keys[i] implies page_map(keys, all)[k]
            == page_map(keys, pages)[k] by {
            let j = keys.index_of(k);
            assert(keys[j] == k);
        }
    }
}

proof fn lemma_remove_page(keys: Seq<KeyModel>, pages: Seq<PageEntry>, i: int)
    requires
        keys.no_duplicates(),
        keys.len() == pages.len(),
        0 <= i < keys.len(),
    ensures
        keys.remove(i).no_duplicates(),
        page_map(keys.remove(i), pages.remove(i)) == page_map(keys, pages).remove(keys[i]),
{
    let shrunk = keys.remove(i);
    let rest = pages.remove(i);
    assert(page_map(shrunk, rest) =~= page_map(keys, pages).remove(keys[i])) by {
        assert forall|k: KeyModel| shrunk.contains(k) == (k != keys[i] && keys.contains(k)) by {
            if shrunk.contains(k) {
                let j = shrunk.index_of(k);
                let at = if j < i { j } else { j + 1 };
                assert(keys[at] == k);
            }
            if keys.contains(k) && k != keys[i] {
                let j = keys.index_of(k);
                let at = if j < i { j } else { j - 1 };
                assert(shrunk[at] == k);
            }
        }
        assert forall|k: KeyModel| shrunk.contains(k) implies page_map(shrunk, rest)[k]
            == page_map(keys, pages)[k] by {
            let j = shrunk.index_of(k);
            let at = if j < i { j } else { j + 1 };
            assert(keys[at] == k);
            lemma_page_at(keys, pages, at);
        }
    }
}

/// The state of the cache.
pub struct CacheState {
    keys: Vec<PageKey>,
    pages: Vec<PageEntry>,
    probationary: Vec<PageKey>,
    protected: Vec<PageKey>,
    bytes: u64,
}

impl View for CacheState {
    type V = CacheModel;

    closed spec fn view(&self) -> CacheModel {
        CacheModel {
            entries: page_map(key_models(self.keys@), self.pages@),
            probationary: key_models(self.probationary@),
            protected: key_models(self.protected@),
            bytes: self.bytes as int,
        }
    }
}

fn position_of(keys: &Vec<PageKey>, key: &PageKey) -> (position: Option<usize>)
    ensures
        match position {
            Some(i) => {
                &&& i < keys.len()
                &&& keys@[i as int]@ == key@
                &&& forall|k: int| 0 <= k < i ==> (#[trigger] keys@[k])@ != key@
            },
            None => !key_models(keys@).contains(key@),
        },
{
    let mut i: usize = 0;
    while i < keys.len()
        invariant
            i <= keys.len(),
            forall|k: int| 0 <= k < i ==> (#[trigger] keys@[k])@ != key@,
        decreases keys.len() - i,
    {
        if keys[i].is(key) {
            return Some(i);
        }
        i = i + 1;
    }
    None
}

proof fn lemma_without_first_at(keys: Seq<KeyModel>, key: KeyModel, i: int)
    requires
        0 <= i < keys.len(),
        keys[i] == key,
        forall|k: int| 0 <= k < i ==> keys[k] != key,
    ensures
        without_first(keys, key) == keys.remove(i),
    decreases i,
{
    if i == 0 {
        assert(keys.skip(1) =~= keys.remove(0));
    } else {
        let rest = keys.skip(1);
        assert forall|k: int| 0 <= k < i - 1 implies rest[k] != key by {
            assert(rest[k] == keys[k + 1]);
        }
        lemma_without_first_at(rest, key, i - 1);
        assert(seq![keys[0]] + rest.remove(i - 1) =~= keys.remove(i));
    }
}

proof fn lemma_without_first_none(keys: Seq<KeyModel>, key: KeyModel)
    requires
        !keys.contains(key),
    ensures
        without_first(keys, key) == keys,
    decreases keys.len(),
{
    if keys.len() > 0 {
        let rest = keys.skip(1);
        assert(keys[0] != key);
        assert(!rest.contains(key)) by {
            if rest.contains(key) {
                let i = rest.index_of(key);
                assert(keys[i + 1] == key);
            }
        }
        lemma_without_first_none(rest, key);
        assert(seq![keys[0]] + rest =~= keys);
    }
}

fn remove_key(queue: &mut Vec<PageKey>, key: &PageKey)
    ensures
        key_models(final(queue)@) == without_first(key_models(old(queue)@), key@),
{
    let ghost before = key_models(queue@);
    match position_of(queue, key) {
        Some(i) => {
            proof {
                assert forall|k: int| 0 <= k < i implies before[k] != key@ by {
                    assert(before[k] == queue@[k]@);
                }
                lemma_without_first_at(before, key@, i as int);
            }
            let _removed = queue.remove(i);
            assert(key_models(queue@) =~= before.remove(i as int));
        },
        None => {
            proof {
                lemma_without_first_none(before, key@);
            }
        },
    }
}

impl CacheState {
    /// No key has two entries.
    pub closed spec fn valid(&self) -> bool {
        &&& self.keys@.len() == self.pages@.len()
        &&& key_models(self.keys@).no_duplicates()
    }

    /// The cache without pages.
    pub fn new() -> (state: CacheState)
        ensures
            state.valid(),
            state@ == CacheModel::empty(),
    {
        let state = CacheState {
            keys: Vec::new(),
            pages: Vec::new(),
            probationary: Vec::new(),
            protected: Vec::new(),
            bytes: 0,
        };
        assert(state@.entries =~= Map::<KeyModel, PageEntry>::empty());
        assert(state@.probationary =~= Seq::<KeyModel>::empty());
        assert(state@.protected =~= Seq::<KeyModel>::empty());
        state
    }

    /// The cache with the pages that were found on disk, and the keys of those that have to leave.
    pub fn restore(pages: &Vec<FoundPage>, max_size: u64) -> (result: (CacheState, Vec<PageKey>))
        ensures
            result.0.valid(),
            (result.0@, key_models(result.1@)) == CacheModel::empty().restored(
                found_models(pages@),
                max_size as int,
            ),
    {
        let ghost found = found_models(pages@);
        let mut state = CacheState::new();
        let mut gone: Vec<PageKey> = Vec::new();
        let mut i: usize = 0;
        assert(key_models(gone@) =~= Seq::<KeyModel>::empty());
        assert(found.take(0) =~= Seq::<(KeyModel, u64)>::empty());
        while i < pages.len()
            invariant
                i <= pages@.len(),
                found == found_models(pages@),
                state.valid(),
                (state@, key_models(gone@)) == CacheModel::empty().restored(
                    found.take(i as int),
                    max_size as int,
                ),
            decreases pages.len() - i,
        {
            let page = &pages[i];
            let ghost before = key_models(gone@);
            assert(found.take(i + 1).drop_last() =~= found.take(i as int));
            assert(found.take(i + 1).last() == (page.key@, page.size));
            if state.contains(&page.key) {
                assert(before + Seq::<KeyModel>::empty() =~= before);
            } else if page.size > max_size || state.bytes().checked_add(page.size).is_none() {
                gone.push(page.key.copy());
                assert(key_models(gone@) =~= before + seq![page.key@]);
            } else {
                let mut evicted = state.store(&page.key, page.size, max_size);
                let ghost more = key_models(evicted@);
                let ghost old_gone = gone@;
                let ghost old_evicted = evicted@;
                gone.append(&mut evicted);
                assert(gone@ == old_gone + old_evicted);
                assert(key_models(gone@) =~= before + more);
            }
            i = i + 1;
        }
        assert(found.take(pages@.len() as int) =~= found);
        (state, gone)
    }

    /// The number of bytes that the cache counts.
    pub fn bytes(&self) -> (bytes: u64)
        ensures
            bytes == self@.bytes,
    {
        self.bytes
    }

    /// Whether the cache holds a page.
    pub fn contains(&self, key: &PageKey) -> (found: bool)
        requires
            self.valid(),
        ensures
            found == self@.entries.contains_key(key@),
    {
        match position_of(&self.keys, key) {
            Some(i) => {
                proof {
                    lemma_page_at(key_models(self.keys@), self.pages@, i as int);
                }
                true
            },
            None => false,
        }
    }

    fn mark(&mut self, key: &PageKey, protected: bool)
        requires
            old(self).valid(),
        ensures
            final(self).valid(),
            final(self)@ == (CacheModel {
                entries: marked(old(self)@.entries, key@, protected),
                ..old(self)@
            }),
    {
        match position_of(&self.keys, key) {
            Some(i) => {
                let size: u64 = self.pages[i].size;
                proof {
                    lemma_page_at(key_models(self.keys@), self.pages@, i as int);
                    lemma_set_page(
                        key_models(self.keys@),
                        self.pages@,
                        i as int,
                        PageEntry { size, protected },
                    );
                }
                self.pages.set(i, PageEntry { size, protected });
            },
            None => {},
        }
    }

    fn remove_entry(&mut self, key: &PageKey) -> (page: Option<PageEntry>)
        requires
            old(self).valid(),
        ensures
            final(self).valid(),
            final(self)@ == (CacheModel {
                entries: old(self)@.entries.remove(key@),
                ..old(self)@
            }),
            match page {
                Some(page) => old(self)@.entries.contains_key(key@) && page
                    == old(self)@.entries[key@],
                None => !old(self)@.entries.contains_key(key@),
            },
    {
        match position_of(&self.keys, key) {
            Some(i) => {
                let ghost before = key_models(self.keys@);
                proof {
                    lemma_page_at(before, self.pages@, i as int);
                    lemma_remove_page(before, self.pages@, i as int);
                }
                let _key = self.keys.remove(i);
                assert(key_models(self.keys@) =~= before.remove(i as int));
                Some(self.pages.remove(i))
            },
            None => {
                assert(self@.entries.remove(key@) =~= self@.entries);
                None
            },
        }
    }

    fn insert_entry(&mut self, key: &PageKey, page: PageEntry)
        requires
            old(self).valid(),
            !old(self)@.entries.contains_key(key@),
        ensures
            final(self).valid(),
            final(self)@ == (CacheModel {
                entries: old(self)@.entries.insert(key@, page),
                ..old(self)@
            }),
    {
        let ghost before = key_models(self.keys@);
        proof {
            assert(!before.contains(key@));
            lemma_push_page(before, self.pages@, key@, page);
        }
        self.keys.push(key.copy());
        self.pages.push(page);
        assert(key_models(self.keys@) =~= before.push(key@));
    }

    fn protected_bytes(&self) -> (bytes: u128)
        requires
            self.valid(),
        ensures
            bytes == queue_bytes(self@.protected, self@.entries),
    {
        let mut bytes: u128 = 0;
        let mut i: usize = self.protected.len();
        let ghost queue = self@.protected;
        assert(queue.skip(i as int) =~= Seq::<KeyModel>::empty());
        while i > 0
            invariant
                self.valid(),
                queue == self@.protected,
                i <= self.protected.len(),
                queue.len() == self.protected@.len(),
                bytes == queue_bytes(queue.skip(i as int), self@.entries),
                bytes <= (queue.len() - i) * u64::MAX,
            decreases i,
        {
            i = i - 1;
            let size: u64 = match position_of(&self.keys, &self.protected[i]) {
                Some(at) => {
                    proof {
                        lemma_page_at(key_models(self.keys@), self.pages@, at as int);
                    }
                    self.pages[at].size
                },
                None => 0,
            };
            proof {
                assert(queue.skip(i as int).skip(1) =~= queue.skip(i + 1));
                assert(queue.skip(i as int)[0] == self.protected@[i as int]@);
                assert((queue.len() - i) * u64::MAX == (queue.len() - (i + 1)) * u64::MAX
                    + u64::MAX) by (nonlinear_arith);
                assert((queue.len() - i) * u64::MAX <= u64::MAX * u64::MAX) by (nonlinear_arith)
                    requires
                        0 <= queue.len() - i <= u64::MAX,
                ;
            }
            bytes = bytes + size as u128;
        }
        assert(queue.skip(0) =~= queue);
        bytes
    }

    fn demote(&mut self, limit: u64)
        requires
            old(self).valid(),
        ensures
            final(self).valid(),
            final(self)@ == old(self)@.demoted(limit as int),
    {
        while self.protected.len() > 0 && self.protected_bytes() > limit as u128
            invariant
                self.valid(),
                self@.protected.len() == self.protected@.len(),
                self@.demoted(limit as int) == old(self)@.demoted(limit as int),
            decreases self.protected.len(),
        {
            let ghost before = self@;
            let key = self.protected.remove(0);
            assert(self@.protected =~= before.protected.skip(1));
            assert(key@ == before.protected[0]);
            self.mark(&key, false);
            self.probationary.push(key);
            assert(self@.probationary =~= before.probationary.push(before.protected[0]));
        }
    }

    /// Notes that a page was used. Protected pages may take up to `protected_limit` bytes.
    pub fn touch(&mut self, key: &PageKey, policy: CachePolicy, protected_limit: u64)
        requires
            old(self).valid(),
        ensures
            final(self).valid(),
            final(self)@ == old(self)@.touched(key@, policy, protected_limit as int),
    {
        let ghost before = self@;
        let protected: bool = match position_of(&self.keys, key) {
            Some(i) => {
                proof {
                    lemma_page_at(key_models(self.keys@), self.pages@, i as int);
                }
                self.pages[i].protected
            },
            None => {
                return;
            },
        };
        remove_key(&mut self.probationary, key);
        remove_key(&mut self.protected, key);
        if policy == CachePolicy::Slru || protected {
            self.mark(key, true);
            let ghost queue = self@.protected;
            self.protected.push(key.copy());
            assert(self@.protected =~= queue.push(key@));
            self.demote(protected_limit);
        } else {
            let ghost queue = self@.probationary;
            self.probationary.push(key.copy());
            assert(self@.probationary =~= queue.push(key@));
        }
    }

    /// Forgets a page whose file is gone. Its bytes stay counted, and its key stays in its queue.
    pub fn forget(&mut self, key: &PageKey)
        requires
            old(self).valid(),
        ensures
            final(self).valid(),
            final(self)@ == (CacheModel {
                entries: old(self)@.entries.remove(key@),
                ..old(self)@
            }),
    {
        let _page = self.remove_entry(key);
    }

    fn evict(&mut self, max_size: u64) -> (evicted: Vec<PageKey>)
        requires
            old(self).valid(),
        ensures
            final(self).valid(),
            (final(self)@, key_models(evicted@)) == old(self)@.evicted(
                max_size as int,
                Seq::empty(),
            ),
    {
        let mut evicted: Vec<PageKey> = Vec::new();
        assert(key_models(evicted@) =~= Seq::<KeyModel>::empty());
        while self.bytes > max_size && (self.probationary.len() > 0 || self.protected.len() > 0)
            invariant
                self.valid(),
                self@.protected.len() == self.protected@.len(),
                self@.probationary.len() == self.probationary@.len(),
                self@.bytes == self.bytes,
                self@.evicted(max_size as int, key_models(evicted@)) == old(self)@.evicted(
                    max_size as int,
                    Seq::empty(),
                ),
            decreases self.probationary.len() + self.protected.len(),
        {
            let ghost before = self@;
            let candidate = if self.probationary.len() > 0 {
                let key = self.probationary.remove(0);
                assert(self@.probationary =~= before.probationary.skip(1));
                key
            } else {
                let key = self.protected.remove(0);
                assert(self@.protected =~= before.protected.skip(1));
                key
            };
            let ghost rest = self@;
            assert((rest, candidate@) == before.popped());
            if let Some(page) = self.remove_entry(&candidate) {
                self.bytes = self.bytes.saturating_sub(page.size);
                let ghost keys = key_models(evicted@);
                let ghost added = candidate@;
                evicted.push(candidate);
                assert(key_models(evicted@) =~= keys.push(added));
                assert(self@ == rest.dropped(added));
            } else {
                assert(self@.entries =~= rest.entries);
                assert(self@ == rest);
            }
        }
        evicted
    }

    /// Notes that a page of a size was stored, and returns the keys of the pages that have to
    /// leave for it, in the order in which they leave.
    pub fn store(&mut self, key: &PageKey, size: u64, max_size: u64) -> (evicted: Vec<PageKey>)
        requires
            old(self).valid(),
            old(self)@.bytes + size <= u64::MAX,
        ensures
            final(self).valid(),
            (final(self)@, key_models(evicted@)) == old(self)@.stored(
                key@,
                size,
                max_size as int,
            ),
    {
        if size > max_size {
            let evicted: Vec<PageKey> = Vec::new();
            assert(key_models(evicted@) =~= Seq::<KeyModel>::empty());
            return evicted;
        }
        let ghost before = self@;
        if let Some(previous) = self.remove_entry(key) {
            self.bytes = self.bytes.saturating_sub(previous.size);
        }
        self.bytes = self.bytes + size;
        self.insert_entry(key, PageEntry { size, protected: false });
        self.probationary.push(key.copy());
        proof {
            assert(self@.probationary =~= before.probationary.push(key@));
            assert(self@.entries =~= before.entries.insert(
                key@,
                PageEntry { size, protected: false },
            ));
            assert(self@ == before.added(key@, size));
        }
        self.evict(max_size)
    }
}

impl CacheModel {
    /// The queues and the count agree with the pages: every page stands once in one of the
    /// queues, nothing else stands there, and the bytes of the pages are the bytes that are
    /// counted.
    pub open spec fn consistent(self) -> bool {
        &&& self.probationary.no_duplicates()
        &&& self.protected.no_duplicates()
        &&& forall|key: KeyModel|
            #![trigger self.probationary.contains(key), self.protected.contains(key)]
            !(self.probationary.contains(key) && self.protected.contains(key))
        &&& forall|key: KeyModel| #[trigger]
            self.entries.contains_key(key) <==> self.probationary.contains(key)
                || self.protected.contains(key)
        &&& self.bytes == queue_bytes(self.probationary, self.entries) + queue_bytes(
            self.protected,
            self.entries,
        )
    }

    /// The two caches hold the same pages.
    pub open spec fn same_pages(self, other: CacheModel) -> bool {
        forall|key: KeyModel|
            #![trigger self.entries.contains_key(key)]
            #![trigger other.entries.contains_key(key)]
            self.entries.contains_key(key) == other.entries.contains_key(key) && (
            self.entries.contains_key(key) ==> self.entries[key].size == other.entries[key].size)
    }
}

proof fn lemma_bytes_by_size(
    queue: Seq<KeyModel>,
    a: Map<KeyModel, PageEntry>,
    b: Map<KeyModel, PageEntry>,
)
    requires
        forall|key: KeyModel| queue.contains(key) ==> page_size(a, key) == page_size(b, key),
    ensures
        queue_bytes(queue, a) == queue_bytes(queue, b),
    decreases queue.len(),
{
    if queue.len() > 0 {
        assert(queue.contains(queue[0]));
        assert forall|key: KeyModel| queue.skip(1).contains(key) implies page_size(a, key)
            == page_size(b, key) by {
            let i = queue.skip(1).index_of(key);
            assert(queue[i + 1] == key);
        }
        lemma_bytes_by_size(queue.skip(1), a, b);
    }
}

proof fn lemma_bytes_push(queue: Seq<KeyModel>, key: KeyModel, entries: Map<KeyModel, PageEntry>)
    ensures
        queue_bytes(queue.push(key), entries) == queue_bytes(queue, entries) + page_size(
            entries,
            key,
        ),
    decreases queue.len(),
{
    let grown = queue.push(key);
    if queue.len() == 0 {
        assert(grown.skip(1) =~= queue);
    } else {
        lemma_bytes_push(queue.skip(1), key, entries);
        assert(grown.skip(1) =~= queue.skip(1).push(key));
    }
}

proof fn lemma_bytes_not_negative(queue: Seq<KeyModel>, entries: Map<KeyModel, PageEntry>)
    ensures
        queue_bytes(queue, entries) >= 0,
    decreases queue.len(),
{
    if queue.len() > 0 {
        lemma_bytes_not_negative(queue.skip(1), entries);
    }
}

proof fn lemma_skip_first(queue: Seq<KeyModel>)
    requires
        queue.len() > 0,
        queue.no_duplicates(),
    ensures
        queue.skip(1).no_duplicates(),
        forall|key: KeyModel| #[trigger]
            queue.skip(1).contains(key) <==> queue.contains(key) && key != queue[0],
{
    let rest = queue.skip(1);
    assert forall|key: KeyModel| #[trigger] rest.contains(key) <==> queue.contains(key) && key
        != queue[0] by {
        if rest.contains(key) {
            let i = rest.index_of(key);
            assert(queue[i + 1] == key);
        }
        if queue.contains(key) && key != queue[0] {
            let i = queue.index_of(key);
            assert(rest[i - 1] == key);
        }
    }
}

proof fn lemma_push_new(queue: Seq<KeyModel>, key: KeyModel)
    requires
        queue.no_duplicates(),
        !queue.contains(key),
    ensures
        queue.push(key).no_duplicates(),
        forall|k: KeyModel| #[trigger] queue.push(key).contains(k) <==> queue.contains(k) || k == key,
{
    let grown = queue.push(key);
    assert forall|k: KeyModel| #[trigger] grown.contains(k) <==> queue.contains(k) || k == key by {
        if queue.contains(k) {
            assert(grown[queue.index_of(k)] == k);
        }
        if k == key {
            assert(grown[queue.len() as int] == k);
        }
    }
}

proof fn lemma_without_first(
    queue: Seq<KeyModel>,
    key: KeyModel,
    entries: Map<KeyModel, PageEntry>,
)
    requires
        queue.no_duplicates(),
    ensures
        without_first(queue, key).no_duplicates(),
        forall|k: KeyModel| #[trigger]
            without_first(queue, key).contains(k) <==> queue.contains(k) && k != key,
        queue_bytes(without_first(queue, key), entries) == queue_bytes(queue, entries) - (
        if queue.contains(key) {
            page_size(entries, key)
        } else {
            0
        }),
    decreases queue.len(),
{
    if queue.len() > 0 {
        lemma_skip_first(queue);
        let rest = queue.skip(1);
        if queue[0] == key {
            assert(queue.contains(key));
        } else {
            lemma_without_first(rest, key, entries);
            let shorter = without_first(rest, key);
            let result = seq![queue[0]] + shorter;
            assert(result.skip(1) =~= shorter);
            assert forall|k: KeyModel| #[trigger] result.contains(k) <==> queue.contains(k) && k
                != key by {
                if result.contains(k) {
                    let i = result.index_of(k);
                    if i > 0 {
                        assert(shorter[i - 1] == k);
                        assert(shorter.contains(k));
                    } else {
                        assert(queue.contains(k));
                    }
                }
                if queue.contains(k) && k != key {
                    if k == queue[0] {
                        assert(result[0] == k);
                    } else {
                        assert(rest.contains(k));
                        assert(shorter.contains(k));
                        assert(result[shorter.index_of(k) + 1] == k);
                    }
                }
            }
            assert(result.no_duplicates()) by {
                assert(!shorter.contains(queue[0]));
                assert forall|i: int, j: int|
                    0 <= i < result.len() && 0 <= j < result.len() && i != j implies result[i]
                    != result[j] by {
                    if i > 0 {
                        assert(shorter[i - 1] == result[i]);
                        assert(shorter.contains(result[i]));
                    }
                    if j > 0 {
                        assert(shorter[j - 1] == result[j]);
                        assert(shorter.contains(result[j]));
                    }
                }
            }
        }
    } else {
        assert(!queue.contains(key));
    }
}

proof fn lemma_demoted_consistent(model: CacheModel, limit: int)
    requires
        model.consistent(),
    ensures
        model.demoted(limit).consistent(),
        model.demoted(limit).bytes == model.bytes,
        model.demoted(limit).same_pages(model),
    decreases model.protected.len(),
{
    if model.protected.len() > 0 && queue_bytes(model.protected, model.entries) > limit {
        let key = model.protected[0];
        let entries = marked(model.entries, key, false);
        let next = CacheModel {
            entries,
            probationary: model.probationary.push(key),
            protected: model.protected.skip(1),
            ..model
        };
        assert(model.protected.contains(key));
        lemma_skip_first(model.protected);
        lemma_push_new(model.probationary, key);
        lemma_bytes_by_size(next.probationary, model.entries, entries);
        lemma_bytes_by_size(next.protected, model.entries, entries);
        lemma_bytes_push(model.probationary, key, model.entries);
        assert(next.same_pages(model));
        assert(next.consistent());
        lemma_demoted_consistent(next, limit);
    }
}

/// Using a page changes the order in which pages leave and nothing else: the cache holds the
/// same pages as before, counts the same bytes, and its queues and its count still agree.
pub proof fn law_touch_keeps_pages(
    model: CacheModel,
    key: KeyModel,
    policy: CachePolicy,
    limit: int,
)
    requires
        model.consistent(),
    ensures
        model.touched(key, policy, limit).consistent(),
        model.touched(key, policy, limit).bytes == model.bytes,
        model.touched(key, policy, limit).same_pages(model),
{
    if model.entries.contains_key(key) {
        lemma_without_first(model.probationary, key, model.entries);
        lemma_without_first(model.protected, key, model.entries);
        let probationary = without_first(model.probationary, key);
        let protected = without_first(model.protected, key);
        if policy == CachePolicy::Slru || model.entries[key].protected {
            let entries = marked(model.entries, key, true);
            let next = CacheModel { entries, probationary, protected: protected.push(key), ..model };
            lemma_push_new(protected, key);
            lemma_bytes_by_size(next.probationary, model.entries, entries);
            lemma_bytes_by_size(next.protected, model.entries, entries);
            lemma_bytes_push(protected, key, model.entries);
            assert(next.same_pages(model));
            assert(next.consistent());
            lemma_demoted_consistent(next, limit);
        } else {
            lemma_push_new(probationary, key);
            lemma_bytes_push(probationary, key, model.entries);
        }
    }
}

proof fn lemma_demoted_within(model: CacheModel, limit: int)
    requires
        limit >= 0,
    ensures
        queue_bytes(model.demoted(limit).protected, model.demoted(limit).entries) <= limit,
    decreases model.protected.len(),
{
    if model.protected.len() > 0 && queue_bytes(model.protected, model.entries) > limit {
        lemma_demoted_within(
            CacheModel {
                entries: marked(model.entries, model.protected[0], false),
                probationary: model.probationary.push(model.protected[0]),
                protected: model.protected.skip(1),
                ..model
            },
            limit,
        );
    }
}

/// After a page was used under the segmented policy the protected pages take no more bytes than
/// the limit.
pub proof fn law_protected_pages_stay_within_limit(model: CacheModel, key: KeyModel, limit: int)
    requires
        limit >= 0,
        model.entries.contains_key(key),
    ensures
        queue_bytes(
            model.touched(key, CachePolicy::Slru, limit).protected,
            model.touched(key, CachePolicy::Slru, limit).entries,
        ) <= limit,
{
    lemma_demoted_within(
        CacheModel {
            entries: marked(model.entries, key, true),
            probationary: without_first(model.probationary, key),
            protected: without_first(model.protected, key).push(key),
            ..model
        },
        limit,
    );
}

proof fn lemma_dropped_consistent(model: CacheModel)
    requires
        model.consistent(),
        model.probationary.len() + model.protected.len() > 0,
    ensures
        model.popped().0.entries.contains_key(model.popped().1),
        model.popped().0.dropped(model.popped().1).consistent(),
{
    let (rest, key) = model.popped();
    let next = rest.dropped(key);
    if model.probationary.len() > 0 {
        assert(model.probationary.contains(key));
        lemma_skip_first(model.probationary);
    } else {
        assert(model.protected.contains(key));
        lemma_skip_first(model.protected);
    }
    lemma_bytes_by_size(next.probationary, model.entries, next.entries);
    lemma_bytes_by_size(next.protected, model.entries, next.entries);
    lemma_bytes_not_negative(next.probationary, next.entries);
    lemma_bytes_not_negative(next.protected, next.entries);
}

proof fn lemma_evicted_consistent(model: CacheModel, max_size: int, keys: Seq<KeyModel>)
    requires
        model.consistent(),
        max_size >= 0,
    ensures
        model.evicted(max_size, keys).0.consistent(),
        model.evicted(max_size, keys).0.bytes <= max_size,
        forall|key: KeyModel| #[trigger]
            model.entries.contains_key(key) ==> model.evicted(
                max_size,
                keys,
            ).0.entries.contains_key(key) || model.evicted(max_size, keys).1.contains(key),
        forall|key: KeyModel| #[trigger]
            model.evicted(max_size, keys).0.entries.contains_key(key)
                ==> model.entries.contains_key(key),
        forall|key: KeyModel| #[trigger]
            keys.contains(key) ==> model.evicted(max_size, keys).1.contains(key),
    decreases model.probationary.len() + model.protected.len(),
{
    if model.bytes > max_size && model.probationary.len() + model.protected.len() > 0 {
        lemma_dropped_consistent(model);
        let (rest, key) = model.popped();
        let next = rest.dropped(key);
        let grown = keys.push(key);
        lemma_evicted_consistent(next, max_size, grown);
        assert(grown[keys.len() as int] == key);
        assert(grown.contains(key));
        assert forall|k: KeyModel| keys.contains(k) implies grown.contains(k) by {
            assert(grown[keys.index_of(k)] == k);
        }
    }
}

/// Storing a page that the cache does not hold keeps the cache within its size, and its queues
/// and its count still agree. Every page that was held, and the new one, is either still held or
/// reported as gone, and nothing else is held.
pub proof fn law_store_stays_within_size(model: CacheModel, key: KeyModel, size: u64, max_size: int)
    requires
        model.consistent(),
        !model.entries.contains_key(key),
        size <= max_size,
    ensures
        model.stored(key, size, max_size).0.consistent(),
        model.stored(key, size, max_size).0.bytes <= max_size,
        forall|k: KeyModel| #[trigger]
            model.entries.contains_key(k) || k == key ==> model.stored(
                key,
                size,
                max_size,
            ).0.entries.contains_key(k) || model.stored(key, size, max_size).1.contains(k),
        forall|k: KeyModel| #[trigger]
            model.stored(key, size, max_size).0.entries.contains_key(k)
                ==> model.entries.contains_key(k) || k == key,
{
    let next = model.added(key, size);
    lemma_push_new(model.probationary, key);
    lemma_bytes_by_size(model.probationary, model.entries, next.entries);
    lemma_bytes_by_size(model.protected, model.entries, next.entries);
    lemma_bytes_push(model.probationary, key, next.entries);
    lemma_bytes_not_negative(model.probationary, model.entries);
    lemma_bytes_not_negative(model.protected, model.entries);
    assert(next.consistent());
    lemma_evicted_consistent(next, max_size, Seq::empty());
    assert forall|k: KeyModel| #[trigger] model.entries.contains_key(k) || k == key implies
        model.stored(key, size, max_size).0.entries.contains_key(k) || model.stored(
        key,
        size,
        max_size,
    ).1.contains(k) by {
        assert(next.entries.contains_key(k));
    }
    assert forall|k: KeyModel| #[trigger]
        model.stored(key, size, max_size).0.entries.contains_key(k) implies
        model.entries.contains_key(k) || k == key by {
        assert(next.entries.contains_key(k));
    }
}

/// A cache that was restored from disk is consistent and within its size, and it holds pages that were
/// found. No page that was found is overlooked: the cache holds it, or it has to leave.
pub proof fn law_restored_cache_holds_found_pages(pages: Seq<(KeyModel, u64)>, max_size: int)
    requires
        max_size >= 0,
    ensures
        ({
            let (cache, gone) = CacheModel::empty().restored(pages, max_size);
            &&& cache.consistent()
            &&& cache.bytes <= max_size
            &&& forall|i: int|
                0 <= i < pages.len() ==> cache.entries.contains_key((#[trigger] pages[i]).0)
                    || gone.contains(pages[i].0)
            &&& forall|key: KeyModel| #[trigger]
                cache.entries.contains_key(key) ==> exists|i: int|
                    0 <= i < pages.len() && (#[trigger] pages[i]).0 == key
        }),
    decreases pages.len(),
{
    let (cache, gone) = CacheModel::empty().restored(pages, max_size);
    if pages.len() > 0 {
        let rest = pages.drop_last();
        let (before, early) = CacheModel::empty().restored(rest, max_size);
        law_restored_cache_holds_found_pages(rest, max_size);
        let (key, size) = pages.last();
        let (next, more) = before.taken(key, size, max_size);
        if !before.entries.contains_key(key) && size <= max_size && before.bytes + size
            <= u64::MAX {
            law_store_stays_within_size(before, key, size, max_size);
        }
        assert forall|i: int| 0 <= i < pages.len() implies cache.entries.contains_key(
            (#[trigger] pages[i]).0,
        ) || gone.contains(pages[i].0) by {
            let k = pages[i].0;
            if i < rest.len() {
                assert(rest[i] == pages[i]);
                if early.contains(k) {
                    assert(gone[early.index_of(k)] == k);
                }
            }
            if more.contains(k) {
                assert(gone[early.len() + more.index_of(k)] == k);
            }
            if k == key && before.entries.contains_key(key) {
                assert(next.entries.contains_key(k));
            }
            assert(before.entries.contains_key(k) || k == key || early.contains(k));
            if k == key && !next.entries.contains_key(k) && !more.contains(k) {
                assert(size > max_size || before.bytes + size > u64::MAX);
                assert(more[0] == k);
            }
        }
        assert forall|k: KeyModel| #[trigger] cache.entries.contains_key(k) implies exists|i: int|
            0 <= i < pages.len() && (#[trigger] pages[i]).0 == k by {
            if before.entries.contains_key(k) {
                let i = choose|i: int| 0 <= i < rest.len() && (#[trigger] rest[i]).0 == k;
                assert(pages[i].0 == k);
            } else {
                assert(pages[pages.len() - 1].0 == k);
            }
        }
    }
}

#[verifier::spinoff_prover]
#[verifier::rlimit(60)]
proof fn lemma_without_first_filters(keys: Seq<KeyModel>, key: KeyModel)
    requires
        keys.no_duplicates(),
    ensures
        without_first(keys, key) == keys.filter(|k: KeyModel| k != key),
    decreases keys.len(),
{
    let other = |k: KeyModel| k != key;
    reveal(Seq::filter);
    if keys.len() > 0 {
        let rest = keys.skip(1);
        let front = seq![keys[0]];
        assert(keys =~= front + rest);
        Seq::filter_distributes_over_add(front, rest, other);
        assert(front.drop_last() =~= Seq::<KeyModel>::empty());
        assert(front.drop_last().filter(other) =~= Seq::<KeyModel>::empty());
        lemma_skip_first(keys);
        lemma_without_first_filters(rest, key);
        if keys[0] == key {
            assert forall|i: int| 0 <= i < rest.len() implies other(#[trigger] rest[i]) by {
                assert(rest[i] == keys[i + 1]);
            }
            lemma_filter_all(rest, other);
            assert(front.filter(other) =~= Seq::<KeyModel>::empty());
            assert(Seq::<KeyModel>::empty() + rest =~= rest);
        } else {
            assert(front.filter(other) =~= front);
        }
    }
}

proof fn lemma_filter_all(keys: Seq<KeyModel>, kept: spec_fn(KeyModel) -> bool)
    requires
        forall|i: int| 0 <= i < keys.len() ==> kept(#[trigger] keys[i]),
    ensures
        keys.filter(kept) == keys,
    decreases keys.len(),
{
    reveal(Seq::filter);
    if keys.len() > 0 {
        lemma_filter_all(keys.drop_last(), kept);
        assert(keys.drop_last().push(keys.last()) =~= keys);
    }
}

/// Pages go back to the probationary queue in the order in which they stand in the protected one, and
/// no more of them than have to: with any one page fewer gone back, the protected pages take more
/// bytes than the limit.
#[verifier::spinoff_prover]
#[verifier::rlimit(60)]
pub proof fn law_protected_pages_go_back_in_order(model: CacheModel, limit: int) -> (count: int)
    ensures
        0 <= count <= model.protected.len(),
        model.demoted(limit).protected == model.protected.skip(count),
        model.demoted(limit).probationary == model.probationary + model.protected.take(count),
        model.demoted(limit).bytes == model.bytes,
        count < model.protected.len() ==> queue_bytes(model.protected.skip(count), model.entries)
            <= limit,
        forall|i: int|
            0 <= i < count ==> queue_bytes(#[trigger] model.protected.skip(i), model.entries)
                > limit,
    decreases model.protected.len(),
{
    if model.protected.len() == 0 || queue_bytes(model.protected, model.entries) <= limit {
        assert(model.protected.skip(0) =~= model.protected);
        assert(model.probationary + model.protected.take(0) =~= model.probationary);
        0
    } else {
        let first = model.protected[0];
        let next = CacheModel {
            entries: marked(model.entries, first, false),
            probationary: model.probationary.push(first),
            protected: model.protected.skip(1),
            ..model
        };
        let count = law_protected_pages_go_back_in_order(next, limit);
        assert(next.protected.skip(count) =~= model.protected.skip(count + 1));
        assert(next.probationary + next.protected.take(count) =~= model.probationary
            + model.protected.take(count + 1));
        lemma_bytes_by_size(model.protected.skip(count + 1), next.entries, model.entries);
        assert forall|i: int| 0 <= i < count + 1 implies queue_bytes(
            #[trigger] model.protected.skip(i),
            model.entries,
        ) > limit by {
            if i == 0 {
                assert(model.protected.skip(0) =~= model.protected);
            } else {
                assert(next.protected.skip(i - 1) =~= model.protected.skip(i));
                lemma_bytes_by_size(model.protected.skip(i), next.entries, model.entries);
            }
        }
        count + 1
    }
}

/// A page that was used goes last. Without segments it stands at the end of the probationary queue
/// and the protected queue stays; all other pages keep their order.
pub proof fn law_used_pages_go_last(model: CacheModel, key: KeyModel, limit: int)
    requires
        model.consistent(),
        model.probationary.contains(key),
        !model.entries[key].protected,
    ensures
        ({
            let next = model.touched(key, CachePolicy::Lru, limit);
            &&& next.probationary == model.probationary.filter(|k: KeyModel| k != key).push(key)
            &&& next.protected == model.protected
            &&& next.entries == model.entries
        }),
{
    lemma_without_first_filters(model.probationary, key);
    lemma_without_first_filters(model.protected, key);
    assert(!model.protected.contains(key));
    assert forall|i: int| 0 <= i < model.protected.len() implies #[trigger] model.protected[i]
        != key by {
        assert(model.protected.contains(model.protected[i]));
    }
    lemma_filter_all(model.protected, |k: KeyModel| k != key);
    assert(model.entries.contains_key(key));
}

/// With segments, a page that was used goes to the end of the protected queue. From the front of that
/// queue pages go back to the end of the probationary one. All other pages keep their order.
pub proof fn law_used_pages_are_protected(model: CacheModel, key: KeyModel, limit: int) -> (count:
    int)
    requires
        model.consistent(),
        model.entries.contains_key(key),
    ensures
        ({
            let next = model.touched(key, CachePolicy::Slru, limit);
            let others = |k: KeyModel| k != key;
            let queue = model.protected.filter(others).push(key);
            &&& 0 <= count <= queue.len()
            &&& next.protected == queue.skip(count)
            &&& next.probationary == model.probationary.filter(others) + queue.take(count)
            &&& count < queue.len() ==> next.protected.last() == key
        }),
{
    lemma_without_first_filters(model.probationary, key);
    lemma_without_first_filters(model.protected, key);
    let queue = model.protected.filter(|k: KeyModel| k != key).push(key);
    let next = CacheModel {
        entries: marked(model.entries, key, true),
        probationary: without_first(model.probationary, key),
        protected: without_first(model.protected, key).push(key),
        ..model
    };
    law_protected_pages_go_back_in_order(next, limit)
}

/// Pages leave the cache in the order of the probationary queue and behind it in that of the
/// protected one, and no more of them than have to: with any one page fewer gone, the cache counts
/// more than its size.
#[verifier::spinoff_prover]
#[verifier::rlimit(60)]
pub proof fn law_pages_leave_in_order(
    model: CacheModel,
    max_size: int,
    gone: Seq<KeyModel>,
) -> (count: int)
    requires
        model.consistent(),
        max_size >= 0,
    ensures
        ({
            let queue = model.probationary + model.protected;
            let (rest, keys) = model.evicted(max_size, gone);
            &&& 0 <= count <= queue.len()
            &&& keys == gone + queue.take(count)
            &&& rest.probationary + rest.protected == queue.skip(count)
            &&& rest.bytes == model.bytes - queue_bytes(queue.take(count), model.entries)
            &&& forall|i: int|
                0 <= i < count ==> model.bytes - queue_bytes(
                    #[trigger] queue.take(i),
                    model.entries,
                ) > max_size
            &&& forall|key: KeyModel| #[trigger]
                rest.entries.contains_key(key) ==> model.entries.contains_key(key)
                    && rest.entries[key] == model.entries[key]
        }),
    decreases model.probationary.len() + model.protected.len(),
{
    let queue = model.probationary + model.protected;
    if model.bytes <= max_size || model.probationary.len() + model.protected.len() == 0 {
        assert(gone + queue.take(0) =~= gone);
        assert(queue.skip(0) =~= queue);
        0
    } else {
        lemma_dropped_consistent(model);
        let (rest, key) = model.popped();
        let next = rest.dropped(key);
        let tail = next.probationary + next.protected;
        assert(tail =~= queue.skip(1));
        assert(queue[0] == key);
        lemma_page_counts(model, key);
        let count = law_pages_leave_in_order(next, max_size, gone.push(key));
        assert(gone.push(key) + tail.take(count) =~= gone + queue.take(count + 1));
        assert(tail.skip(count) =~= queue.skip(count + 1));
        lemma_queue_apart(model);
        assert forall|i: int| 0 <= i <= tail.len() implies queue_bytes(
            #[trigger] queue.take(i + 1),
            model.entries,
        ) == model.entries[key].size + queue_bytes(tail.take(i), next.entries) by {
            let front = queue.take(i + 1);
            assert(front.skip(1) =~= tail.take(i));
            assert(front[0] == key);
            assert forall|j: int| 0 <= j < tail.take(i).len() implies page_size(
                model.entries,
                #[trigger] tail.take(i)[j],
            ) == page_size(next.entries, tail.take(i)[j]) by {
                assert(tail.take(i)[j] == queue[j + 1]);
                assert(queue[j + 1] != queue[0]);
            }
            lemma_bytes_by_page(tail.take(i), model.entries, next.entries);
        }
        assert(queue.take(count + 1) == queue.take(count + 1));
        assert forall|i: int| 0 <= i < count + 1 implies model.bytes - queue_bytes(
            #[trigger] queue.take(i),
            model.entries,
        ) > max_size by {
            if i == 0 {
                assert(queue.take(0) =~= Seq::<KeyModel>::empty());
            } else {
                assert(queue.take((i - 1) + 1) == queue.take(i));
                assert(next.bytes - queue_bytes(tail.take(i - 1), next.entries) > max_size);
            }
        }
        count + 1
    }
}

proof fn lemma_bytes_by_page(
    queue: Seq<KeyModel>,
    a: Map<KeyModel, PageEntry>,
    b: Map<KeyModel, PageEntry>,
)
    requires
        forall|j: int|
            0 <= j < queue.len() ==> page_size(a, #[trigger] queue[j]) == page_size(b, queue[j]),
    ensures
        queue_bytes(queue, a) == queue_bytes(queue, b),
    decreases queue.len(),
{
    if queue.len() > 0 {
        let rest = queue.skip(1);
        assert forall|j: int| 0 <= j < rest.len() implies page_size(a, #[trigger] rest[j])
            == page_size(b, rest[j]) by {
            assert(rest[j] == queue[j + 1]);
        }
        lemma_bytes_by_page(rest, a, b);
        assert(page_size(a, queue[0]) == page_size(b, queue[0]));
    }
}

proof fn lemma_queue_apart(model: CacheModel)
    requires
        model.consistent(),
    ensures
        (model.probationary + model.protected).no_duplicates(),
{
    let queue = model.probationary + model.protected;
    assert forall|i: int, j: int| 0 <= i < queue.len() && 0 <= j < queue.len() && i != j implies
        queue[i] != queue[j] by {
        let size = model.probationary.len() as int;
        if i < size {
            assert(model.probationary.contains(queue[i]));
        } else {
            assert(queue[i] == model.protected[i - size]);
            assert(model.protected.contains(queue[i]));
        }
        if j < size {
            assert(model.probationary.contains(queue[j]));
        } else {
            assert(queue[j] == model.protected[j - size]);
            assert(model.protected.contains(queue[j]));
        }
    }
}

proof fn lemma_page_counts(model: CacheModel, key: KeyModel)
    requires
        model.consistent(),
        model.probationary.len() + model.protected.len() > 0,
        key == model.popped().1,
    ensures
        model.entries.contains_key(key),
        model.bytes >= model.entries[key].size,
{
    lemma_bytes_not_negative(model.probationary, model.entries);
    lemma_bytes_not_negative(model.protected, model.entries);
    if model.probationary.len() > 0 {
        assert(model.probationary.contains(key));
        lemma_bytes_not_negative(model.probationary.skip(1), model.entries);
    } else {
        assert(model.protected.contains(key));
        lemma_bytes_not_negative(model.protected.skip(1), model.entries);
    }
}

/// A page that is stored is held with its size and unprotected, unless it had to leave again; and a
/// page larger than the cache is not stored and changes nothing.
pub proof fn law_stored_pages_are_held(
    model: CacheModel,
    key: KeyModel,
    size: u64,
    max_size: int,
)
    requires
        model.consistent(),
        !model.entries.contains_key(key),
        max_size >= 0,
    ensures
        size > max_size ==> model.stored(key, size, max_size) == (model, Seq::<KeyModel>::empty()),
        model.bytes + size <= max_size ==> {
            let (next, gone) = model.stored(key, size, max_size);
            &&& gone.len() == 0
            &&& next.entries == model.entries.insert(key, PageEntry { size, protected: false })
            &&& next.probationary == model.probationary.push(key)
            &&& next.protected == model.protected
            &&& next.bytes == model.bytes + size
        },
{
    lemma_bytes_not_negative(model.probationary, model.entries);
    lemma_bytes_not_negative(model.protected, model.entries);
}

} // verus!
