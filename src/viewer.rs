//! The foreground side of the image pipeline: request deduplication, the store
//! of decoded buffers, and the bounded least-recently-used store of renderable
//! handles. The worker that decodes and the channels that reach it are driven
//! by the caller: `request_load` and `preload_adjacent` say which identifiers
//! to send to the worker, and `poll` takes the results that came back.
use vstd::prelude::*;

use crate::keyed::{
    has_id, has_key, id_position, insert_key, key_index, key_position, lemma_id_index, lemma_key_index,
    lemma_push_fresh, lemma_remove_id, lemma_remove_key, remove_id, remove_key, unique_ids, unique_keys,
};

verus! {

/// At most this many renderable handles stay resident.
pub const CACHE_SIZE: usize = 5;

/// Interleaved RGBA8 pixels and their dimensions.
pub struct DecodedImage {
    pub pixels: Vec<u8>,
    pub width: usize,
    pub height: usize,
}

impl DecodedImage {
    /// The buffer holds exactly four bytes per pixel.
    pub open spec fn wf(&self) -> bool {
        self.pixels@.len() == self.width * self.height * 4
    }
}

/// What an `ImageCache` holds, as mathematical values.
pub struct CacheModel<H> {
    /// Renderable handles, least recently used first.
    pub resident: Seq<(String, H)>,
    /// Decoded buffers waiting to be uploaded.
    pub decoded: Seq<(String, DecodedImage)>,
    /// Identifiers sent to the worker whose result has not arrived.
    pub pending: Seq<String>,
}

pub struct ImageCache<H> {
    textures: Vec<(String, H)>,
    decoded: Vec<(String, DecodedImage)>,
    loading: Vec<String>,
}

impl<H> View for ImageCache<H> {
    type V = CacheModel<H>;

    closed spec fn view(&self) -> CacheModel<H> {
        CacheModel { resident: self.textures@, decoded: self.decoded@, pending: self.loading@ }
    }
}

/// The invariant of the cache: identifiers are unique within each store, at
/// most `CACHE_SIZE` handles are resident, and an identifier that waits for
/// the worker is neither decoded nor resident.
pub open spec fn model_wf<H>(m: CacheModel<H>) -> bool {
    &&& unique_keys(m.resident)
    &&& m.resident.len() <= CACHE_SIZE
    &&& unique_keys(m.decoded)
    &&& unique_ids(m.pending)
    &&& forall|k: Seq<char>| has_id(m.pending, k) ==> !has_key(m.decoded, k) && !has_key(m.resident, k)
}

/// The cache already holds or awaits `id`.
pub open spec fn is_known<H>(m: CacheModel<H>, id: Seq<char>) -> bool {
    has_key(m.resident, id) || has_key(m.decoded, id) || has_id(m.pending, id)
}

/// A load request: the new state, and whether `id` goes to the worker.
pub open spec fn request_step<H>(m: CacheModel<H>, id: String) -> (CacheModel<H>, bool) {
    if is_known(m, id@) {
        (m, false)
    } else {
        (CacheModel { pending: m.pending.push(id), ..m }, true)
    }
}

/// A decode result arrives: `id` stops waiting and its buffer is stored.
pub open spec fn receive_step<H>(m: CacheModel<H>, id: String, img: DecodedImage) -> CacheModel<H> {
    CacheModel { pending: remove_id(m.pending, id@), decoded: insert_key(m.decoded, id, img), ..m }
}

/// Results received in order.
pub open spec fn poll_step<H>(m: CacheModel<H>, results: Seq<(String, DecodedImage)>) -> CacheModel<H>
    decreases results.len(),
{
    if results.len() == 0 {
        m
    } else {
        let last = results.last();
        receive_step(poll_step(m, results.drop_last()), last.0, last.1)
    }
}

/// Drops the least recently used entries until at most `CACHE_SIZE` remain.
pub open spec fn evict<X>(s: Seq<(String, X)>) -> Seq<(String, X)> {
    if s.len() > CACHE_SIZE {
        s.subrange(s.len() - CACHE_SIZE, s.len() as int)
    } else {
        s
    }
}

/// Moves the entry for `k` to the most recently used end.
pub open spec fn to_back<X>(s: Seq<(String, X)>, k: Seq<char>) -> Seq<(String, X)> {
    remove_key(s, k).push(s[key_index(s, k)])
}

/// A texture lookup for `id`, where `h` is the handle that uploading the
/// decoded buffer for `id` gives, if there is one.
pub open spec fn texture_step<H>(m: CacheModel<H>, id: String, h: H) -> CacheModel<H> {
    if has_key(m.decoded, id@) {
        CacheModel {
            resident: evict(insert_key(m.resident, id, h)),
            decoded: remove_key(m.decoded, id@),
            ..m
        }
    } else if has_key(m.resident, id@) {
        CacheModel { resident: to_back(m.resident, id@), ..m }
    } else {
        m
    }
}

/// Requests for the identifiers at the positions `idx`, in order: the new
/// state, and the identifiers that go to the worker.
pub open spec fn request_all<H>(m: CacheModel<H>, paths: Seq<String>, idx: Seq<int>) -> (
    CacheModel<H>,
    Seq<String>,
)
    decreases idx.len(),
{
    if idx.len() == 0 {
        (m, Seq::empty())
    } else {
        let (m1, sent) = request_all(m, paths, idx.drop_last());
        let id = paths[idx.last()];
        let (m2, go) = request_step(m1, id);
        (m2, if go { sent.push(id) } else { sent })
    }
}

/// Releasing every handle and decoded buffer; waiting identifiers stay.
pub open spec fn clear_step<H>(m: CacheModel<H>) -> CacheModel<H> {
    CacheModel { resident: Seq::empty(), decoded: Seq::empty(), pending: m.pending }
}

/// Appends `i` to `s` when it lies in `[0, len)`.
pub open spec fn keep_in_range(s: Seq<int>, i: int, len: int) -> Seq<int> {
    if 0 <= i < len {
        s.push(i)
    } else {
        s
    }
}

/// The positions to preload around `current`, in priority order: the current
/// one, then the next, previous, second next and second previous, each only
/// where it lies in `[0, len)`.
pub open spec fn plan_spec(len: int, current: int) -> Seq<int> {
    keep_in_range(
        keep_in_range(
            keep_in_range(
                keep_in_range(keep_in_range(Seq::empty(), current, len), current + 1, len),
                current - 1,
                len,
            ),
            current + 2,
            len,
        ),
        current - 2,
        len,
    )
}

/// The positions to preload around `current` among `len` images.
pub fn preload_plan(len: usize, current: usize) -> (r: Vec<usize>)
    ensures
        r@.map_values(|i: usize| i as int) == plan_spec(len as int, current as int),
{
    let mut r: Vec<usize> = Vec::new();
    if current < len {
        r.push(current);
    }
    if current < len && len - current > 1 {
        r.push(current + 1);
    }
    if current >= 1 && current - 1 < len {
        r.push(current - 1);
    }
    if current < len && len - current > 2 {
        r.push(current + 2);
    }
    if current >= 2 && current - 2 < len {
        r.push(current - 2);
    }
    assert(r@.map_values(|i: usize| i as int) =~= plan_spec(len as int, current as int));
    r
}

impl<H> Default for ImageCache<H> {
    fn default() -> (r: Self)
        ensures
            r.wf(),
            r@.resident.len() == 0,
            r@.decoded.len() == 0,
            r@.pending.len() == 0,
    {
        Self::new()
    }
}

impl<H> ImageCache<H> {
    pub open spec fn wf(&self) -> bool {
        model_wf(self@)
    }

    /// An empty cache.
    pub fn new() -> (r: Self)
        ensures
            r.wf(),
            r@.resident.len() == 0,
            r@.decoded.len() == 0,
            r@.pending.len() == 0,
    {
        ImageCache { textures: Vec::new(), decoded: Vec::new(), loading: Vec::new() }
    }

    /// Asks for `id` unless it is resident, decoded or already awaited.
    /// Returns whether `id` is to be sent to the worker.
    pub fn request_load(&mut self, id: &String) -> (sent: bool)
        requires
            old(self).wf(),
        ensures
            final(self).wf(),
            (final(self)@, sent) == request_step(old(self)@, *id),
    {
        let known = key_position(&self.textures, id).is_some() || key_position(
            &self.decoded,
            id,
        ).is_some() || id_position(&self.loading, id).is_some();
        if known {
            return false;
        }
        let ghost before = self@;
        self.loading.push(id.clone());
        proof {
            let p = self.loading@;
            assert(p[p.len() - 1]@ == id@);
            assert forall|a: int, b: int|
                0 <= a < p.len() && 0 <= b < p.len() && (#[trigger] p[a])@ == (#[trigger] p[b])@ implies a
                == b by {
                if a < p.len() - 1 && b == p.len() - 1 {
                    assert(before.pending[a]@ == id@);
                }
                if b < p.len() - 1 && a == p.len() - 1 {
                    assert(before.pending[b]@ == id@);
                }
            }
            assert forall|k: Seq<char>| has_id(p, k) implies !has_key(self@.decoded, k) && !has_key(
                self@.resident,
                k,
            ) by {
                let j = choose|j: int| 0 <= j < p.len() && (#[trigger] p[j])@ == k;
                if j < p.len() - 1 {
                    assert(has_id(before.pending, k));
                }
            }
        }
        true
    }

    /// Takes one decode result: `id` stops waiting and its buffer is stored,
    /// replacing an earlier buffer for the same identifier.
    pub fn receive(&mut self, id: String, img: DecodedImage)
        requires
            old(self).wf(),
        ensures
            final(self).wf(),
            final(self)@ == receive_step(old(self)@, id, img),
    {
        let ghost before = self@;
        if let Some(i) = id_position(&self.loading, &id) {
            proof {
                lemma_id_index(self.loading@, id@, i as int);
            }
            self.loading.remove(i);
        }
        proof {
            lemma_remove_id(before.pending, id@);
        }
        if let Some(i) = key_position(&self.decoded, &id) {
            proof {
                lemma_key_index(self.decoded@, id@, i as int);
            }
            self.decoded.remove(i);
        }
        proof {
            lemma_remove_key(before.decoded, id@);
            lemma_push_fresh(remove_key(before.decoded, id@), id, img);
        }
        self.decoded.push((id, img));
        proof {
            let m = self@;
            assert forall|k: Seq<char>| has_id(m.pending, k) implies !has_key(m.decoded, k)
                && !has_key(m.resident, k) by {
                assert(has_id(before.pending, k));
            }
        }
    }

    /// Takes the decode results that arrived, in order of arrival.
    pub fn poll(&mut self, results: Vec<(String, DecodedImage)>)
        requires
            old(self).wf(),
        ensures
            final(self).wf(),
            final(self)@ == poll_step(old(self)@, results@),
    {
        let ghost start = self@;
        let ghost all = results@;
        let mut rest = results;
        let total: usize = rest.len();
        let mut n: usize = 0;
        while rest.len() > 0
            invariant
                self.wf(),
                all.len() == total,
                n + rest@.len() == all.len(),
                rest@ == all.subrange(n as int, all.len() as int),
                self@ == poll_step(start, all.subrange(0, n as int)),
            decreases rest@.len(),
        {
            let (id, img) = rest.remove(0);
            self.receive(id, img);
            proof {
                let next = all.subrange(0, n + 1);
                assert(next.drop_last() =~= all.subrange(0, n as int));
                assert(next.last() == all[n as int]);
            }
            n += 1;
        }
        proof {
            assert(all.subrange(0, n as int) =~= all);
        }
    }

    /// Drops least recently used handles until at most `CACHE_SIZE` remain.
    fn evict_if_needed(&mut self)
        requires
            unique_keys(old(self).textures@),
        ensures
            final(self).textures@ == evict(old(self).textures@),
            unique_keys(final(self).textures@),
            final(self).decoded == old(self).decoded,
            final(self).loading == old(self).loading,
    {
        let ghost start = self.textures@;
        while self.textures.len() > CACHE_SIZE
            invariant
                self.textures@.len() <= start.len(),
                self.textures@ == start.subrange(
                    start.len() - self.textures@.len(),
                    start.len() as int,
                ),
                self.textures@.len() >= CACHE_SIZE || self.textures@ == start,
                unique_keys(start),
                self.decoded == old(self).decoded,
                self.loading == old(self).loading,
            decreases self.textures@.len(),
        {
            self.textures.remove(0);
            assert(self.textures@ =~= start.subrange(
                start.len() - self.textures@.len(),
                start.len() as int,
            ));
        }
        proof {
            let t = self.textures@;
            let off = start.len() - t.len();
            assert forall|a: int, b: int|
                0 <= a < t.len() && 0 <= b < t.len() && (#[trigger] t[a]).0@ == (#[trigger] t[b]).0@ implies a
                == b by {
                assert(start[a + off].0@ == start[b + off].0@);
            }
            if start.len() <= CACHE_SIZE {
                assert(t =~= start);
            }
        }
    }

    /// The renderable handle for `id`. A decoded buffer for `id` is first
    /// uploaded with `upload` and becomes resident, evicting the least
    /// recently used handles beyond `CACHE_SIZE`. A handle that is returned
    /// becomes the most recently used. `None` means not ready.
    pub fn get_texture<F: FnOnce(DecodedImage) -> H>(&mut self, id: &String, upload: F) -> (r:
        Option<&H>)
        requires
            old(self).wf(),
            forall|d: DecodedImage| upload.requires((d,)),
        ensures
            final(self).wf(),
            final(self)@ == texture_step(old(self)@, *id, final(self)@.resident.last().1),
            has_key(old(self)@.decoded, id@) ==> upload.ensures(
                (old(self)@.decoded[key_index(old(self)@.decoded, id@)].1,),
                final(self)@.resident.last().1,
            ),
            r.is_some() == (has_key(old(self)@.decoded, id@) || has_key(old(self)@.resident, id@)),
            r.is_some() ==> final(self)@.resident.len() > 0 && final(self)@.resident.last().0@
                == id@ && *r.unwrap() == final(self)@.resident.last().1,
    {
        let ghost before = self@;
        if let Some(i) = key_position(&self.decoded, id) {
            proof {
                lemma_key_index(self.decoded@, id@, i as int);
                lemma_remove_key(before.decoded, id@);
            }
            let (_, img) = self.decoded.remove(i);
            let h = upload(img);
            let key = id.clone();
            if let Some(j) = key_position(&self.textures, id) {
                proof {
                    lemma_key_index(self.textures@, id@, j as int);
                }
                self.textures.remove(j);
            }
            proof {
                lemma_remove_key(before.resident, id@);
                lemma_push_fresh(remove_key(before.resident, id@), key, h);
            }
            self.textures.push((key, h));
            self.evict_if_needed();
            proof {
                let m = self@;
                let t = insert_key(before.resident, *id, h);
                assert(m.resident.last() == t.last());
                assert forall|k: Seq<char>| has_id(m.pending, k) implies !has_key(m.decoded, k)
                    && !has_key(m.resident, k) by {
                    if has_key(m.resident, k) {
                        let j = choose|j: int| 0 <= j < m.resident.len() && (#[trigger] m.resident[j]).0@ == k;
                        let off = t.len() - m.resident.len();
                        assert(t[j + off].0@ == k);
                        assert(has_key(t, k));
                        if k != id@ {
                            assert(has_key(before.resident, k));
                        }
                    }
                }
            }
            let last = self.textures.len() - 1;
            return Some(&self.textures[last].1);
        }
        if let Some(j) = key_position(&self.textures, id) {
            proof {
                lemma_key_index(self.textures@, id@, j as int);
                lemma_remove_key(before.resident, id@);
            }
            let entry = self.textures.remove(j);
            proof {
                let e = before.resident[j as int];
                lemma_push_fresh(remove_key(before.resident, id@), e.0, e.1);
            }
            self.textures.push(entry);
            proof {
                let m = self@;
                assert forall|k: Seq<char>| has_id(m.pending, k) implies !has_key(m.decoded, k)
                    && !has_key(m.resident, k) by {
                    if has_key(m.resident, k) && k != id@ {
                        assert(has_key(remove_key(before.resident, id@), k));
                    }
                }
            }
            let last = self.textures.len() - 1;
            return Some(&self.textures[last].1);
        }
        None
    }

    /// Requests the images around `current` in priority order (see
    /// `preload_plan`). Returns the identifiers to send to the worker, in
    /// that order.
    pub fn preload_adjacent(&mut self, paths: &Vec<String>, current: usize) -> (sent: Vec<String>)
        requires
            old(self).wf(),
        ensures
            final(self).wf(),
            (final(self)@, sent@) == request_all(
                old(self)@,
                paths@,
                plan_spec(paths@.len() as int, current as int),
            ),
    {
        let plan = preload_plan(paths.len(), current);
        let ghost idx = plan_spec(paths@.len() as int, current as int);
        let ghost start = self@;
        let mut sent: Vec<String> = Vec::new();
        let mut n: usize = 0;
        while n < plan.len()
            invariant
                self.wf(),
                n <= plan@.len(),
                plan@.map_values(|i: usize| i as int) == idx,
                forall|q: int| 0 <= q < idx.len() ==> 0 <= #[trigger] idx[q] < paths@.len(),
                (self@, sent@) == request_all(start, paths@, idx.subrange(0, n as int)),
            decreases plan@.len() - n,
        {
            let p = plan[n];
            assert(idx[n as int] == p as int);
            let go = self.request_load(&paths[p]);
            if go {
                sent.push(paths[p].clone());
            }
            proof {
                let next = idx.subrange(0, n + 1);
                assert(next.drop_last() =~= idx.subrange(0, n as int));
                assert(next.last() == p as int);
            }
            n += 1;
        }
        proof {
            assert(idx.subrange(0, n as int) =~= idx);
        }
        sent
    }

    /// Releases every handle and every decoded buffer. Identifiers that wait
    /// for the worker keep waiting.
    pub fn clear(&mut self)
        requires
            old(self).wf(),
        ensures
            final(self).wf(),
            final(self)@ == clear_step(old(self)@),
    {
        self.textures.clear();
        self.decoded.clear();
        assert(self@.resident =~= Seq::<(String, H)>::empty());
        assert(self@.decoded =~= Seq::<(String, DecodedImage)>::empty());
    }
}

/// Results that arrive leave the resident handles as they are.
pub proof fn lemma_poll_keeps_resident<H>(m: CacheModel<H>, results: Seq<(String, DecodedImage)>)
    ensures
        poll_step(m, results).resident == m.resident,
    decreases results.len(),
{
    if results.len() > 0 {
        lemma_poll_keeps_resident(m, results.drop_last());
    }
}

/// Whatever happens to a cache that holds its invariant, at most `CACHE_SIZE`
/// handles are resident afterwards.
pub proof fn lemma_capacity_bound<H>(
    m: CacheModel<H>,
    id: String,
    h: H,
    results: Seq<(String, DecodedImage)>,
)
    requires
        model_wf(m),
    ensures
        m.resident.len() <= CACHE_SIZE,
        request_step(m, id).0.resident.len() <= CACHE_SIZE,
        poll_step(m, results).resident.len() <= CACHE_SIZE,
        texture_step(m, id, h).resident.len() <= CACHE_SIZE,
        clear_step(m).resident.len() <= CACHE_SIZE,
{
    lemma_poll_keeps_resident(m, results);
    lemma_remove_key(m.resident, id@);
}

/// When a new handle joins a full cache, the least recently used entry (the
/// head of the recency order) is the one released, the others keep their
/// order, and the new handle becomes the most recently used.
pub proof fn lemma_evicts_least_recent<H>(m: CacheModel<H>, id: String, h: H)
    requires
        model_wf(m),
        m.resident.len() == CACHE_SIZE,
        has_key(m.decoded, id@),
        !has_key(m.resident, id@),
    ensures
        texture_step(m, id, h).resident == m.resident.subrange(1, CACHE_SIZE as int).push((id, h)),
        !has_key(texture_step(m, id, h).resident, m.resident[0].0@),
{
    let t = m.resident.push((id, h));
    assert(remove_key(m.resident, id@) == m.resident);
    assert(t.subrange(1, t.len() as int) =~= m.resident.subrange(1, CACHE_SIZE as int).push((id, h)));
    let r = texture_step(m, id, h).resident;
    let k = m.resident[0].0@;
    if has_key(r, k) {
        let j = choose|j: int| 0 <= j < r.len() && (#[trigger] r[j]).0@ == k;
        if j < CACHE_SIZE - 1 {
            assert(m.resident[j + 1].0@ == m.resident[0].0@);
        } else {
            assert(r[j].0@ == id@);
            assert(has_key(m.resident, id@));
        }
    }
}

/// Touching a resident handle (with no new buffer for it) makes it the most
/// recently used and keeps every other entry in its order.
pub proof fn lemma_touch_moves_to_back<H>(m: CacheModel<H>, id: String, h: H)
    requires
        model_wf(m),
        has_key(m.resident, id@),
        !has_key(m.decoded, id@),
    ensures
        texture_step(m, id, h).resident.len() == m.resident.len(),
        texture_step(m, id, h).resident.last() == m.resident[key_index(m.resident, id@)],
        texture_step(m, id, h).resident.drop_last() == remove_key(m.resident, id@),
{
    lemma_remove_key(m.resident, id@);
    let r = texture_step(m, id, h).resident;
    assert(r.drop_last() =~= remove_key(m.resident, id@));
}

/// Asking twice for the same identifier sends it to the worker at most once:
/// the second request never sends.
pub proof fn lemma_request_once<H>(m: CacheModel<H>, id: String)
    ensures
        request_step(m, id).1 == !is_known(m, id@),
        !request_step(request_step(m, id).0, id).1,
{
    let m1 = request_step(m, id).0;
    if !is_known(m, id@) {
        assert(m1.pending[m1.pending.len() - 1]@ == id@);
        assert(has_id(m1.pending, id@));
    }
}

/// After `clear`, a request for an identifier that was resident sends it to
/// the worker again.
pub proof fn lemma_clear_then_request<H>(m: CacheModel<H>, id: String)
    requires
        model_wf(m),
        has_key(m.resident, id@),
    ensures
        request_step(clear_step(m), id).1,
{
    let c = clear_step(m);
    assert(!has_id(c.pending, id@));
    assert(!has_key(c.resident, id@));
    assert(!has_key(c.decoded, id@));
}

/// The preload plan holds exactly the positions in `[0, len)` at distance at
/// most two from `current`, each once.
pub proof fn lemma_plan_members(len: int, current: int)
    ensures
        forall|i: int|
            plan_spec(len, current).contains(i) <==> (0 <= i < len && current - 2 <= i <= current
                + 2),
        plan_spec(len, current).no_duplicates(),
{
    let p = plan_spec(len, current);
    assert forall|i: int| p.contains(i) <==> (0 <= i < len && current - 2 <= i <= current + 2) by {
        if 0 <= i < len && current - 2 <= i <= current + 2 {
            assert(p.contains(i)) by {
                if i == current {
                    assert(p[0] == i);
                } else if i == current + 1 {
                    let a = keep_in_range(Seq::empty(), current, len);
                    assert(p[a.len() as int] == i);
                } else if i == current - 1 {
                    let a = keep_in_range(keep_in_range(Seq::empty(), current, len), current + 1, len);
                    assert(p[a.len() as int] == i);
                } else if i == current + 2 {
                    let a = keep_in_range(keep_in_range(keep_in_range(Seq::empty(), current, len), current + 1, len), current - 1, len);
                    assert(p[a.len() as int] == i);
                } else {
                    let a = keep_in_range(keep_in_range(keep_in_range(keep_in_range(Seq::empty(), current, len), current + 1, len), current - 1, len), current + 2, len);
                    assert(p[a.len() as int] == i);
                }
            }
        }
    }
}

/// Results for other identifiers never make `id` decoded or resident: where
/// the worker drops a request, the texture for it stays not ready.
pub proof fn lemma_dropped_request_never_ready<H>(
    m: CacheModel<H>,
    id: String,
    results: Seq<(String, DecodedImage)>,
    h: H,
)
    requires
        !has_key(m.decoded, id@),
        !has_key(m.resident, id@),
        forall|i: int| 0 <= i < results.len() ==> (#[trigger] results[i]).0@ != id@,
    ensures
        !has_key(poll_step(m, results).decoded, id@),
        !has_key(poll_step(m, results).resident, id@),
        texture_step(poll_step(m, results), id, h) == poll_step(m, results),
    decreases results.len(),
{
    lemma_poll_keeps_resident(m, results);
    if results.len() > 0 {
        let rest = results.drop_last();
        assert forall|i: int| 0 <= i < rest.len() implies (#[trigger] rest[i]).0@ != id@ by {
            assert(rest[i] == results[i]);
        }
        lemma_dropped_request_never_ready(m, id, rest, h);
        let d = poll_step(m, rest).decoded;
        let last = results.last();
        assert(last.0@ != id@);
        let r = remove_key(d, last.0@);
        if has_key(r, id@) {
            let j = choose|j: int| 0 <= j < r.len() && (#[trigger] r[j]).0@ == id@;
            if has_key(d, last.0@) {
                let x = key_index(d, last.0@);
                let j2 = if j < x { j } else { j + 1 };
                assert(d[j2].0@ == id@);
            } else {
                assert(d[j].0@ == id@);
            }
        }
        let n = r.push((last.0, last.1));
        if has_key(n, id@) {
            let j = choose|j: int| 0 <= j < n.len() && (#[trigger] n[j]).0@ == id@;
            assert(j < r.len());
            assert(r[j].0@ == id@);
        }
    }
}

} // verus!
