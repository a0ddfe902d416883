use vstd::prelude::*;
use crate::bufpage::{
    empty_page, end_free, item_len, item_offset, lemma_empty_page, num_items, page_add_item, page_check,
    page_fits, page_items, page_iter, page_wf, start_free, ITEM_ID_SIZE, PAGE_HEADER_SIZE, PAGE_SIZE,
};
use crate::buffer::{BufferHandle, BufferPool};
use crate::pager::Error;
use crate::rel::Relation;

verus! {

/// Largest payload that fits on an empty page.
pub const MAX_TUPLE_SIZE: usize = PAGE_SIZE - PAGE_HEADER_SIZE - ITEM_ID_SIZE;

/// The bytes of one tuple.
pub struct HeapTuple {
    pub data: Vec<u8>,
}

/// The columns of a relation, in column order.
pub struct TupleDesc {
    pub attrs: Vec<crate::catalog::PgAttribute>,
}

/// The payloads of a list of tuples.
pub open spec fn tuples_view(ts: Seq<HeapTuple>) -> Seq<Seq<u8>> {
    ts.map_values(|t: HeapTuple| t.data@)
}

/// Every tuple of a relation: the pages in order, each page's items in slot order.
pub open spec fn rel_tuples(pages: Seq<Seq<u8>>) -> Seq<Seq<u8>>
    decreases pages.len(),
{
    if pages.len() == 0 {
        Seq::empty()
    } else {
        rel_tuples(pages.drop_last()) + page_items(pages.last())
    }
}

pub open spec fn all_pages_wf(pages: Seq<Seq<u8>>) -> bool {
    forall|i: int| 0 <= i < pages.len() ==> page_wf(#[trigger] pages[i])
}

/// Whether page `p` is a well-formed slotted page with room for `len` payload bytes.
pub open spec fn page_accepts(p: Seq<u8>, len: int) -> bool {
    page_wf(p) && page_fits(p, len)
}

/// Index of the first page that accepts `len` bytes, or `pages.len()` when none does.
pub open spec fn first_fit(pages: Seq<Seq<u8>>, len: int) -> int
    decreases pages.len(),
{
    if pages.len() == 0 {
        0
    } else {
        let k = first_fit(pages.drop_last(), len);
        if k < pages.len() - 1 {
            k
        } else if page_accepts(pages.last(), len) {
            pages.len() - 1
        } else {
            pages.len() as int
        }
    }
}

/// Page `newp` is page `oldp` after `page_add_item` of `payload`: the item list grows by the
/// payload, copied just below the old free-space end, and the header moves by its size.
pub open spec fn page_added(oldp: Seq<u8>, newp: Seq<u8>, payload: Seq<u8>) -> bool {
    &&& page_wf(newp)
    &&& page_items(newp) == page_items(oldp).push(payload)
    &&& start_free(newp) == start_free(oldp) + ITEM_ID_SIZE
    &&& end_free(newp) == end_free(oldp) - payload.len()
    &&& item_offset(newp, num_items(oldp)) == end_free(newp)
    &&& item_len(newp, num_items(oldp)) == payload.len()
    &&& forall|i: int| 0 <= i < num_items(oldp) ==> #[trigger] item_offset(newp, i) == item_offset(oldp, i)
        && item_len(newp, i) == item_len(oldp, i)
}

/// `new` is `old` with `payload` added to page `p`; `p == old.len()` is a new page.
pub open spec fn inserted_at(old: Seq<Seq<u8>>, new: Seq<Seq<u8>>, payload: Seq<u8>, p: int) -> bool {
    &&& 0 <= p <= old.len()
    &&& new.len() == if p < old.len() { old.len() } else { old.len() + 1 }
    &&& forall|k: int| 0 <= k < old.len() && k != p ==> #[trigger] new[k] == old[k]
    &&& page_added(if p < old.len() { old[p] } else { empty_page() }, new[p], payload)
}

/// A tuple is scanned from `pages` exactly when some page holds it as an item.
pub open spec fn on_some_page(pages: Seq<Seq<u8>>, x: Seq<u8>) -> bool {
    exists|i: int, k: int| 0 <= i < pages.len() && 0 <= k < page_items(pages[i]).len()
        && #[trigger] page_items(pages[i])[k] == x
}

pub proof fn lemma_rel_tuples_member(pages: Seq<Seq<u8>>, x: Seq<u8>)
    ensures
        rel_tuples(pages).contains(x) <==> on_some_page(pages, x),
    decreases pages.len(),
{
    if pages.len() > 0 {
        let d = pages.drop_last();
        lemma_rel_tuples_member(d, x);
        let a = rel_tuples(d);
        let b = page_items(pages.last());
        assert(rel_tuples(pages) == a + b);
        if rel_tuples(pages).contains(x) {
            let j = choose|j: int| 0 <= j < rel_tuples(pages).len() && rel_tuples(pages)[j] == x;
            if j < a.len() {
                assert(a[j] == x);
                assert(a.contains(x));
                let (i, k) = choose|i: int, k: int| 0 <= i < d.len() && 0 <= k < page_items(d[i]).len()
                    && #[trigger] page_items(d[i])[k] == x;
                assert(d[i] == pages[i]);
            } else {
                assert(b[j - a.len()] == x);
                assert(page_items(pages[pages.len() - 1])[j - a.len()] == x);
            }
        }
        if on_some_page(pages, x) {
            let (i, k) = choose|i: int, k: int| 0 <= i < pages.len() && 0 <= k < page_items(pages[i]).len()
                && #[trigger] page_items(pages[i])[k] == x;
            if i < d.len() {
                assert(d[i] == pages[i]);
                assert(page_items(d[i])[k] == x);
                assert(a.contains(x));
                let j = choose|j: int| 0 <= j < a.len() && a[j] == x;
                assert((a + b)[j] == x);
            } else {
                assert((a + b)[a.len() + k] == x);
            }
        }
    }
}

/// After an insert the scanned tuples are the earlier ones and the inserted payload.
pub proof fn lemma_insert_member(old: Seq<Seq<u8>>, new: Seq<Seq<u8>>, payload: Seq<u8>, p: int, x: Seq<u8>)
    requires
        inserted_at(old, new, payload, p),
    ensures
        rel_tuples(new).contains(x) <==> (rel_tuples(old).contains(x) || x == payload),
{
    lemma_rel_tuples_member(old, x);
    lemma_rel_tuples_member(new, x);
    lemma_empty_page();
    let oldp = if p < old.len() { old[p] } else { empty_page() };
    if on_some_page(new, x) {
        let (i, k) = choose|i: int, k: int| 0 <= i < new.len() && 0 <= k < page_items(new[i]).len()
            && #[trigger] page_items(new[i])[k] == x;
        if i != p {
            assert(new[i] == old[i]);
            assert(page_items(old[i])[k] == x);
        } else if k < page_items(oldp).len() {
            assert(page_items(new[p])[k] == page_items(oldp)[k]);
            assert(p < old.len());
            assert(page_items(old[p])[k] == x);
        }
    }
    if on_some_page(old, x) {
        let (i, k) = choose|i: int, k: int| 0 <= i < old.len() && 0 <= k < page_items(old[i]).len()
            && #[trigger] page_items(old[i])[k] == x;
        if i != p {
            assert(new[i] == old[i]);
            assert(page_items(new[i])[k] == x);
        } else {
            assert(page_items(new[p])[k] == x);
        }
    }
    if x == payload {
        let k = page_items(oldp).len() as int;
        assert(page_items(new[p])[k] == x);
    }
}

pub proof fn lemma_first_fit_bounds(pages: Seq<Seq<u8>>, len: int)
    ensures
        0 <= first_fit(pages, len) <= pages.len(),
    decreases pages.len(),
{
    if pages.len() > 0 {
        lemma_first_fit_bounds(pages.drop_last(), len);
    }
}

pub proof fn lemma_first_fit(pages: Seq<Seq<u8>>, len: int, i: int)
    requires
        0 <= i <= pages.len(),
        forall|k: int| 0 <= k < i ==> !page_accepts(#[trigger] pages[k], len),
        i < pages.len() ==> page_accepts(pages[i], len),
    ensures
        first_fit(pages, len) == i,
    decreases pages.len(),
{
    if pages.len() > 0 {
        let d = pages.drop_last();
        if i < pages.len() - 1 {
            assert(d[i] == pages[i]);
            lemma_first_fit(d, len, i);
        } else {
            assert forall|k: int| 0 <= k < d.len() implies !page_accepts(#[trigger] d[k], len) by {
                assert(d[k] == pages[k]);
            }
            lemma_first_fit(d, len, d.len() as int);
        }
    }
}

/// Scanning after an insert yields the earlier tuples followed by the new one, whenever the
/// insert lands on the last page or on a new page (no earlier page had room for it).
pub proof fn law_scan_after_insert(old: Seq<Seq<u8>>, new: Seq<Seq<u8>>, payload: Seq<u8>)
    requires
        inserted_at(old, new, payload, first_fit(old, payload.len() as int)),
        first_fit(old, payload.len() as int) >= old.len() - 1,
    ensures
        rel_tuples(new) == rel_tuples(old).push(payload),
{
    let p = first_fit(old, payload.len() as int);
    if p < old.len() {
        assert(new.drop_last() =~= old.drop_last());
        assert(rel_tuples(new) =~= rel_tuples(old).push(payload));
    } else {
        assert(new.drop_last() =~= old);
        assert(rel_tuples(new) =~= rel_tuples(old).push(payload));
    }
}

/// Pins the first page of `rel` that can take `size` more payload bytes, adding a fresh
/// page when none can.
pub fn get_page_with_free_space(pool: &mut BufferPool, rel: &Relation, size: usize) -> (r: Result<BufferHandle, Error>)
    requires
        old(pool).wf(),
        old(pool).pins_below_max(),
        0 < size <= MAX_TUPLE_SIZE,
    ensures
        final(pool).wf(),
        final(pool).num_frames() == old(pool).num_frames(),
        old(pool).contents().contains_key(rel.oid) && old(pool).has_free_frame()
            && old(pool).contents()[rel.oid].len() < u32::MAX - 1 ==> r is Ok,
        !old(pool).contents().contains_key(rel.oid) ==> r == Err::<BufferHandle, Error>(Error::RelationNotFound),
        r matches Err(e) ==> e == Error::RelationNotFound || e == Error::IncorrectPageNumber
            || e == Error::BufferPoolExhausted,
        r is Err ==> final(pool).contents() == old(pool).contents()
            && forall|g: int| 0 <= g < old(pool).num_frames() ==> #[trigger] final(pool).frame_pin(g) == old(pool).frame_pin(g),
        r matches Ok(h) ==> {
            let pages = old(pool).contents()[rel.oid];
            let p = first_fit(pages, size as int);
            &&& old(pool).contents().contains_key(rel.oid)
            &&& final(pool).valid_handle(&h)
            &&& final(pool).frame_tag(h.id()) == Some((rel.oid, (p + 1) as u32))
            &&& page_accepts(final(pool).frame_data(h.id()), size as int)
            &&& final(pool).contents() == if p < pages.len() { old(pool).contents() } else {
                old(pool).contents().insert(rel.oid, pages.push(empty_page()))
            }
            &&& final(pool).frame_pin(h.id()) == old(pool).frame_pin(h.id()) + 1
            &&& forall|g: int| 0 <= g < old(pool).num_frames() && g != h.id()
                ==> #[trigger] final(pool).frame_pin(g) == old(pool).frame_pin(g)
        },
{
    let ghost a = *pool;
    proof { a.lemma_wf(); }
    let total = match pool.pager(rel.oid) {
        Some(pg) => match pg.size() {
            Ok(t) => t,
            Err(_) => 0,
        },
        None => {
            return Err(Error::RelationNotFound);
        },
    };
    let ghost pages = a.contents()[rel.oid];
    let mut n: u32 = 1;
    while n <= total
        invariant
            pool.wf(),
            a == *old(pool),
            0 < size <= MAX_TUPLE_SIZE,
            a.wf(),
            a.pins_below_max(),
            pool.contents() == a.contents(),
            pool.num_frames() == a.num_frames(),
            pages == a.contents()[rel.oid],
            a.contents().contains_key(rel.oid),
            total == pages.len(),
            total < u32::MAX,
            1 <= n <= total + 1,
            forall|g: int| 0 <= g < a.num_frames() ==> #[trigger] pool.frame_pin(g) == a.frame_pin(g),
            forall|k: int| 0 <= k < n - 1 ==> !page_accepts(#[trigger] pages[k], size as int),
        decreases total + 1 - n,
    {
        proof {
            assert forall|f: int| 0 <= f < pool.num_frames() implies #[trigger] pool.frame_pin(f) < u32::MAX by {
                assert(a.frame_pin(f) < u32::MAX);
            }
            if a.has_free_frame() {
                let f = choose|f: int| 0 <= f < a.num_frames() && a.frame_pin(f) == 0;
                assert(pool.frame_pin(f) == 0);
            }
        }
        let h = match pool.fetch_buffer(rel, n) {
            Ok(h) => h,
            Err(e) => {
                return Err(e);
            },
        };
        let page = pool.get_page(&h);
        let ok = page_check(page.as_slice());
        let mut fits = false;
        if ok {
            let start = crate::bufpage::read_u16(page.as_slice(), 0) as usize;
            let end = crate::bufpage::read_u16(page.as_slice(), 2) as usize;
            fits = size <= end - start && ITEM_ID_SIZE <= end - start - size;
        }
        if fits {
            proof {
                lemma_first_fit(pages, size as int, n - 1);
            }
            return Ok(h);
        }
        let _ = pool.unpin_buffer(h, false);
        n = n + 1;
    }
    proof {
        lemma_first_fit(pages, size as int, pages.len() as int);
        if a.has_free_frame() {
            let f = choose|f: int| 0 <= f < a.num_frames() && a.frame_pin(f) == 0;
            assert(pool.frame_pin(f) == 0);
        }
    }
    let h = pool.alloc_buffer(rel);
    proof {
        lemma_empty_page();
        pool.lemma_wf();
    }
    h
}

/// Inserts `tuple` into the first page of `rel` with room for it, adding a page when none
/// has room. Payloads that are empty or larger than `MAX_TUPLE_SIZE` are refused.
#[verifier::rlimit(60)]
pub fn heap_insert(pool: &mut BufferPool, rel: &Relation, tuple: &HeapTuple) -> (r: Result<(), Error>)
    requires
        old(pool).wf(),
        old(pool).pins_below_max(),
    ensures
        final(pool).wf(),
        final(pool).num_frames() == old(pool).num_frames(),
        forall|g: int| 0 <= g < old(pool).num_frames() ==> #[trigger] final(pool).frame_pin(g) == old(pool).frame_pin(g),
        tuple.data@.len() == 0 || tuple.data@.len() > MAX_TUPLE_SIZE ==> r == Err::<(), Error>(Error::PageFull),
        0 < tuple.data@.len() <= MAX_TUPLE_SIZE && !old(pool).contents().contains_key(rel.oid)
            ==> r == Err::<(), Error>(Error::RelationNotFound),
        0 < tuple.data@.len() <= MAX_TUPLE_SIZE && old(pool).contents().contains_key(rel.oid)
            && old(pool).has_free_frame() && old(pool).contents()[rel.oid].len() < u32::MAX - 1 ==> r is Ok,
        r is Err ==> final(pool).contents() == old(pool).contents(),
        r matches Err(e) ==> e == Error::PageFull || e == Error::RelationNotFound || e == Error::IncorrectPageNumber
            || e == Error::BufferPoolExhausted,
        r is Ok ==> {
            let pages = old(pool).contents()[rel.oid];
            &&& old(pool).contents().contains_key(rel.oid)
            &&& final(pool).contents() == old(pool).contents().insert(rel.oid, final(pool).contents()[rel.oid])
            &&& inserted_at(pages, final(pool).contents()[rel.oid], tuple.data@,
                first_fit(pages, tuple.data@.len() as int))
            &&& exists|f: int| 0 <= f < final(pool).num_frames()
                && #[trigger] final(pool).frame_tag(f) == Some((rel.oid, (first_fit(pages, tuple.data@.len() as int) + 1) as u32))
                && final(pool).frame_dirty(f)
        },
{
    let len = tuple.data.len();
    if len == 0 || len > MAX_TUPLE_SIZE {
        return Err(Error::PageFull);
    }
    let ghost a = *pool;
    let h = get_page_with_free_space(pool, rel, len)?;
    let ghost b = *pool;
    let mut page = pool.get_page(&h).clone();
    proof {
        b.lemma_wf();
    }
    let added = page_add_item(&mut page, tuple.data.as_slice());
    proof {
        assert(added is Ok);
        lemma_empty_page();
    }
    pool.set_page(&h, page);
    let ghost c = *pool;
    let _ = pool.unpin_buffer(h, true);
    proof {
        let pages = a.contents()[rel.oid];
        let p = first_fit(pages, len as int);
        let bp = b.contents()[rel.oid];
        a.lemma_wf();
        lemma_first_fit_bounds(pages, len as int);
        assert(b.frame_tag(h.id()) == Some((rel.oid, (p + 1) as u32)));
        assert(b.frame_tag(h.id()) is Some);
        assert(bp[p] == b.frame_data(h.id()));
        assert(pool.frame_tag(h.id()) == b.frame_tag(h.id()));
        assert(pool.frame_dirty(h.id()));
        let newp = bp.update(p, c.frame_data(h.id()));
        assert(pool.contents() == a.contents().insert(rel.oid, newp));
        assert(pool.contents() =~= a.contents().insert(rel.oid, newp));
        assert forall|k: int| 0 <= k < pages.len() && k != p implies #[trigger] newp[k] == pages[k] by {
            if p >= pages.len() {
                assert(newp[k] == pages.push(empty_page())[k]);
            }
        }
        let oldp = if p < pages.len() { pages[p] } else { empty_page() };
        assert(bp[p] == oldp);
        assert(newp[p] == c.frame_data(h.id()));
        assert(page_added(oldp, newp[p], tuple.data@));
        assert(pool.contents()[rel.oid] == newp);
        assert(inserted_at(pages, newp, tuple.data@, p));
        assert(0 <= h.id() < pool.num_frames());
        assert(pool.frame_tag(h.id()) == Some((rel.oid, (p + 1) as u32)) && pool.frame_dirty(h.id()));
    }
    Ok(())
}

/// Every tuple of `rel`: pages in ascending order, each page's items in slot order.
pub fn heap_scan(pool: &mut BufferPool, rel: &Relation) -> (r: Result<Vec<HeapTuple>, Error>)
    requires
        old(pool).wf(),
        old(pool).pins_below_max(),
    ensures
        final(pool).wf(),
        final(pool).contents() == old(pool).contents(),
        final(pool).num_frames() == old(pool).num_frames(),
        forall|g: int| 0 <= g < old(pool).num_frames() ==> #[trigger] final(pool).frame_pin(g) == old(pool).frame_pin(g),
        forall|g: int| 0 <= g < old(pool).num_frames() && #[trigger] final(pool).frame_dirty(g)
            ==> old(pool).frame_dirty(g),
        !old(pool).contents().contains_key(rel.oid) ==> r == Err::<Vec<HeapTuple>, Error>(Error::RelationNotFound),
        old(pool).contents().contains_key(rel.oid) && old(pool).has_free_frame()
            ==> (r is Ok <==> all_pages_wf(old(pool).contents()[rel.oid])),
        r matches Err(e) ==> e == Error::RelationNotFound || (e == Error::CorruptedFile
            && !all_pages_wf(old(pool).contents()[rel.oid])) || (e == Error::BufferPoolExhausted
            && !old(pool).has_free_frame()),
        r matches Ok(ts) ==> old(pool).contents().contains_key(rel.oid)
            && tuples_view(ts@) == rel_tuples(old(pool).contents()[rel.oid]),
{
    let ghost a = *pool;
    proof { a.lemma_wf(); }
    let total = match pool.pager(rel.oid) {
        Some(pg) => match pg.size() {
            Ok(t) => t,
            Err(_) => 0,
        },
        None => {
            return Err(Error::RelationNotFound);
        },
    };
    let ghost pages = a.contents()[rel.oid];
    let mut tuples: Vec<HeapTuple> = Vec::new();
    let mut n: u32 = 1;
    while n <= total
        invariant
            pool.wf(),
            a == *old(pool),
            a.wf(),
            a.pins_below_max(),
            pool.contents() == a.contents(),
            pool.num_frames() == a.num_frames(),
            pages == a.contents()[rel.oid],
            a.contents().contains_key(rel.oid),
            total == pages.len(),
            total < u32::MAX,
            1 <= n <= total + 1,
            forall|g: int| 0 <= g < a.num_frames() ==> #[trigger] pool.frame_pin(g) == a.frame_pin(g),
            forall|k: int| 0 <= k < n - 1 ==> page_wf(#[trigger] pages[k]),
            forall|g: int| 0 <= g < a.num_frames() && #[trigger] pool.frame_dirty(g) ==> a.frame_dirty(g),
            tuples_view(tuples@) == rel_tuples(pages.subrange(0, n - 1)),
        decreases total + 1 - n,
    {
        proof {
            assert forall|f: int| 0 <= f < pool.num_frames() implies #[trigger] pool.frame_pin(f) < u32::MAX by {
                assert(a.frame_pin(f) < u32::MAX);
            }
            if a.has_free_frame() {
                let f = choose|f: int| 0 <= f < a.num_frames() && a.frame_pin(f) == 0;
                assert(pool.frame_pin(f) == 0);
            }
        }
        let h = match pool.fetch_buffer(rel, n) {
            Ok(h) => h,
            Err(e) => {
                return Err(e);
            },
        };
        let page = pool.get_page(&h);
        if !page_check(page.as_slice()) {
            let _ = pool.unpin_buffer(h, false);
            return Err(Error::CorruptedFile);
        }
        let items = page_iter(page.as_slice());
        let ghost before = tuples@;
        let mut j: usize = 0;
        let mut items = items;
        let ghost all_items = items@;
        let count = items.len();
        while j < count
            invariant
                j <= count,
                count == all_items.len(),
                items@ == all_items.subrange(j as int, count as int),
                all_items.len() == page_items(pages[n - 1]).len(),
                forall|i: int| 0 <= i < all_items.len() ==> #[trigger] all_items[i]@ == page_items(pages[n - 1])[i],
                tuples_view(tuples@) == tuples_view(before) + page_items(pages[n - 1]).subrange(0, j as int),
            decreases count - j,
        {
            let data = items.remove(0);
            let ghost prev = tuples@;
            let ghost d = data@;
            tuples.push(HeapTuple { data });
            proof {
                assert(d == all_items[j as int]@);
                assert(tuples_view(tuples@) =~= tuples_view(prev).push(d));
                assert(tuples_view(tuples@) =~= tuples_view(before) + page_items(pages[n - 1]).subrange(0, j + 1));
                assert(items@ =~= all_items.subrange(j + 1, count as int));
            }
            j = j + 1;
        }
        proof {
            assert(page_items(pages[n - 1]).subrange(0, j as int) =~= page_items(pages[n - 1]));
            assert(pages.subrange(0, n as int).drop_last() =~= pages.subrange(0, n - 1));
        }
        let _ = pool.unpin_buffer(h, false);
        n = n + 1;
    }
    proof {
        assert(pages.subrange(0, total as int) =~= pages);
    }
    Ok(tuples)
}

} // verus!
