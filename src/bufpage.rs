use vstd::prelude::*;
use crate::pager::Error;

verus! {

/// Size in bytes of every data page.
pub const PAGE_SIZE: usize = 16384;

/// Size in bytes of the page header: `start_free_space`, `end_free_space`, `page_size`.
pub const PAGE_HEADER_SIZE: usize = 6;

/// Size in bytes of one item id: `offset` and `length`.
pub const ITEM_ID_SIZE: usize = 4;

/// The little-endian `u16` stored at byte `a` of `p`.
pub open spec fn u16_at(p: Seq<u8>, a: int) -> int {
    p[a] as int + 256 * (p[a + 1] as int)
}

pub open spec fn start_free(p: Seq<u8>) -> int {
    u16_at(p, 0)
}

pub open spec fn end_free(p: Seq<u8>) -> int {
    u16_at(p, 2)
}

/// Number of item ids in the directory of page `p`.
pub open spec fn num_items(p: Seq<u8>) -> int {
    (start_free(p) - PAGE_HEADER_SIZE) / (ITEM_ID_SIZE as int)
}

pub open spec fn item_offset(p: Seq<u8>, i: int) -> int {
    u16_at(p, PAGE_HEADER_SIZE + ITEM_ID_SIZE * i)
}

pub open spec fn item_len(p: Seq<u8>, i: int) -> int {
    u16_at(p, PAGE_HEADER_SIZE + ITEM_ID_SIZE * i + 2)
}

/// The payload bytes of item `i`.
pub open spec fn item_bytes(p: Seq<u8>, i: int) -> Seq<u8> {
    p.subrange(item_offset(p, i), item_offset(p, i) + item_len(p, i))
}

/// The payloads of a page, in slot order.
pub open spec fn page_items(p: Seq<u8>) -> Seq<Seq<u8>> {
    Seq::new(num_items(p) as nat, |i: int| item_bytes(p, i))
}

/// Free bytes between the item-id array and the payloads.
pub open spec fn free_space(p: Seq<u8>) -> int {
    end_free(p) - start_free(p)
}

/// Whether a payload of `len` bytes can be added to page `p`.
pub open spec fn page_fits(p: Seq<u8>, len: int) -> bool {
    0 < len && ITEM_ID_SIZE + len <= free_space(p)
}

/// The slotted-page invariants: header bounds, a contiguous item-id array, and payloads
/// that lie above the free space, inside the page, each one below the earlier ones.
pub open spec fn page_wf(p: Seq<u8>) -> bool {
    &&& p.len() == PAGE_SIZE
    &&& PAGE_HEADER_SIZE <= start_free(p) <= end_free(p) <= PAGE_SIZE
    &&& (start_free(p) - PAGE_HEADER_SIZE) % (ITEM_ID_SIZE as int) == 0
    &&& u16_at(p, 4) == PAGE_SIZE
    &&& forall|i: int|
        0 <= i < num_items(p) ==> {
            &&& end_free(p) <= #[trigger] item_offset(p, i)
            &&& 0 < item_len(p, i)
            &&& item_offset(p, i) + item_len(p, i) <= PAGE_SIZE
        }
    &&& forall|i: int, j: int|
        0 <= i < j < num_items(p) ==> #[trigger] item_offset(p, j) + item_len(p, j)
            <= #[trigger] item_offset(p, i)
}

/// Reads the little-endian `u16` at byte `a`.
pub fn read_u16(p: &[u8], a: usize) -> (r: u16)
    requires
        a + 1 < p@.len(),
    ensures
        r as int == u16_at(p@, a as int),
{
    p[a] as u16 + 256 * (p[a + 1] as u16)
}

/// Writes `v` little-endian at byte `a`.
pub fn write_u16(p: &mut Vec<u8>, a: usize, v: u16)
    requires
        a + 1 < old(p)@.len(),
    ensures
        final(p)@ == old(p)@.update(a as int, (v % 256) as u8).update(a + 1, (v / 256) as u8),
        u16_at(final(p)@, a as int) == v,
{
    let n = p.len();
    assert(a + 1 < n);
    p[a] = (v % 256) as u8;
    p[a + 1] = (v / 256) as u8;
}

/// Writes a fresh page header: no items, the whole body free.
pub fn page_init(p: &mut Vec<u8>)
    requires
        old(p)@.len() == PAGE_SIZE,
    ensures
        final(p)@ == old(p)@.update(0, 6u8).update(1, 0u8).update(2, 0u8).update(3, 64u8).update(4, 0u8).update(5, 64u8),
        page_wf(final(p)@),
        page_items(final(p)@) =~= Seq::<Seq<u8>>::empty(),
        free_space(final(p)@) == PAGE_SIZE - PAGE_HEADER_SIZE,
{
    write_u16(p, 0, PAGE_HEADER_SIZE as u16);
    write_u16(p, 2, PAGE_SIZE as u16);
    write_u16(p, 4, PAGE_SIZE as u16);
    assert(start_free(p@) == PAGE_HEADER_SIZE);
    assert(end_free(p@) == PAGE_SIZE);
}

/// A fresh, empty slotted page.
pub fn new_page() -> (p: Vec<u8>)
    ensures
        p@ == empty_page(),
        page_wf(p@),
        page_items(p@) =~= Seq::<Seq<u8>>::empty(),
        free_space(p@) == PAGE_SIZE - PAGE_HEADER_SIZE,
{
    let mut p: Vec<u8> = Vec::new();
    let mut i: usize = 0;
    while i < PAGE_SIZE
        invariant
            i <= PAGE_SIZE,
            p@ =~= Seq::new(i as nat, |k: int| 0u8),
        decreases PAGE_SIZE - i,
    {
        p.push(0u8);
        i = i + 1;
    }
    page_init(&mut p);
    assert(p@ =~= empty_page());
    p
}

/// Copies `src` into `p` starting at byte `at`.
fn copy_into(p: &mut Vec<u8>, at: usize, src: &[u8])
    requires
        at + src@.len() <= old(p)@.len(),
    ensures
        final(p)@.len() == old(p)@.len(),
        forall|k: int|
            0 <= k < final(p)@.len() ==> #[trigger] final(p)@[k] == if at <= k < at + src@.len() {
                src@[k - at]
            } else {
                old(p)@[k]
            },
{
    let ghost orig = p@;
    let n = p.len();
    let mut j: usize = 0;
    while j < src.len()
        invariant
            at + src@.len() <= orig.len(),
            n == orig.len(),
            j <= src@.len(),
            p@.len() == orig.len(),
            forall|k: int|
                0 <= k < p@.len() ==> #[trigger] p@[k] == if at <= k < at + j {
                    src@[k - at]
                } else {
                    orig[k]
                },
        decreases src@.len() - j,
    {
        p[at + j] = src[j];
        j = j + 1;
    }
}

/// What `page_add_item` leaves in the page, stated bytewise, gives the new page's items.
proof fn lemma_add_item(old_p: Seq<u8>, np: Seq<u8>, payload: Seq<u8>)
    requires
        page_wf(old_p),
        page_fits(old_p, payload.len() as int),
        np.len() == old_p.len(),
        forall|k: int|
            (PAGE_HEADER_SIZE <= k < start_free(old_p) || end_free(old_p) <= k < PAGE_SIZE)
                ==> #[trigger] np[k] == old_p[k],
        np[4] == old_p[4],
        np[5] == old_p[5],
        start_free(np) == start_free(old_p) + ITEM_ID_SIZE,
        end_free(np) == end_free(old_p) - payload.len(),
        u16_at(np, start_free(old_p)) == end_free(np),
        u16_at(np, start_free(old_p) + 2) == payload.len(),
        np.subrange(end_free(np), end_free(old_p)) == payload,
    ensures
        page_wf(np),
        page_items(np) == page_items(old_p).push(payload),
        item_offset(np, num_items(old_p)) == end_free(np),
        item_len(np, num_items(old_p)) == payload.len(),
        forall|i: int| 0 <= i < num_items(old_p) ==> #[trigger] item_offset(np, i) == item_offset(old_p, i)
            && item_len(np, i) == item_len(old_p, i),
{
    let n = num_items(old_p);
    let start = start_free(old_p);
    assert(num_items(np) == n + 1);
    assert(start == PAGE_HEADER_SIZE + ITEM_ID_SIZE * n);
    assert forall|i: int| 0 <= i < n implies item_offset(np, i) == item_offset(old_p, i)
        && item_len(np, i) == item_len(old_p, i) by {
        assert(PAGE_HEADER_SIZE + ITEM_ID_SIZE * i + 3 < start);
        assert(np[PAGE_HEADER_SIZE + ITEM_ID_SIZE * i] == old_p[PAGE_HEADER_SIZE + ITEM_ID_SIZE * i]);
        assert(np[PAGE_HEADER_SIZE + ITEM_ID_SIZE * i + 1] == old_p[PAGE_HEADER_SIZE + ITEM_ID_SIZE * i + 1]);
        assert(np[PAGE_HEADER_SIZE + ITEM_ID_SIZE * i + 2] == old_p[PAGE_HEADER_SIZE + ITEM_ID_SIZE * i + 2]);
        assert(np[PAGE_HEADER_SIZE + ITEM_ID_SIZE * i + 3] == old_p[PAGE_HEADER_SIZE + ITEM_ID_SIZE * i + 3]);
    }
    assert forall|i: int| 0 <= i < n implies item_bytes(np, i) == item_bytes(old_p, i) by {
        assert(item_bytes(np, i) =~= item_bytes(old_p, i));
    }
    assert(item_offset(np, n) == end_free(np));
    assert(item_len(np, n) == payload.len());
    assert(item_bytes(np, n) =~= payload);
    assert(page_items(np) =~= page_items(old_p).push(payload));
}

/// Adds `payload` to the page: the payload is copied at the top of the free space and a
/// new item id pointing at it is appended to the directory.
pub fn page_add_item(p: &mut Vec<u8>, payload: &[u8]) -> (r: Result<(), Error>)
    requires
        page_wf(old(p)@),
    ensures
        r is Ok <==> page_fits(old(p)@, payload@.len() as int),
        r is Ok ==> {
            &&& page_wf(final(p)@)
            &&& page_items(final(p)@) == page_items(old(p)@).push(payload@)
            &&& start_free(final(p)@) == start_free(old(p)@) + ITEM_ID_SIZE
            &&& end_free(final(p)@) == end_free(old(p)@) - payload@.len()
            &&& item_offset(final(p)@, num_items(old(p)@)) == end_free(final(p)@)
            &&& item_len(final(p)@, num_items(old(p)@)) == payload@.len()
            &&& forall|i: int| 0 <= i < num_items(old(p)@) ==> #[trigger] item_offset(final(p)@, i)
                == item_offset(old(p)@, i) && item_len(final(p)@, i) == item_len(old(p)@, i)
        },
        r is Err ==> r == Err::<(), Error>(Error::PageFull) && final(p)@ == old(p)@,
{
    let start = read_u16(p.as_slice(), 0) as usize;
    let end = read_u16(p.as_slice(), 2) as usize;
    let len = payload.len();
    if len == 0 || len > end - start || ITEM_ID_SIZE > end - start - len {
        return Err(Error::PageFull);
    }
    let ghost old_p = p@;
    let new_end = end - len;
    copy_into(p, new_end, payload);
    write_u16(p, start, new_end as u16);
    write_u16(p, start + 2, len as u16);
    write_u16(p, 0, (start + ITEM_ID_SIZE) as u16);
    write_u16(p, 2, new_end as u16);
    assert(p@.subrange(new_end as int, end as int) =~= payload@);
    proof {
        lemma_add_item(old_p, p@, payload@);
    }
    Ok(())
}

/// Decodes the payloads of a well-formed page, in slot order.
pub fn page_iter(p: &[u8]) -> (r: Vec<Vec<u8>>)
    requires
        page_wf(p@),
    ensures
        r@.len() == page_items(p@).len(),
        forall|i: int| 0 <= i < r@.len() ==> #[trigger] r@[i]@ == page_items(p@)[i],
{
    let start = read_u16(p, 0) as usize;
    let n = (start - PAGE_HEADER_SIZE) / ITEM_ID_SIZE;
    let mut r: Vec<Vec<u8>> = Vec::new();
    let mut i: usize = 0;
    while i < n
        invariant
            page_wf(p@),
            n == num_items(p@),
            i <= n,
            r@.len() == i,
            forall|k: int| 0 <= k < i ==> #[trigger] r@[k]@ == page_items(p@)[k],
        decreases n - i,
    {
        let off = read_u16(p, PAGE_HEADER_SIZE + ITEM_ID_SIZE * i) as usize;
        let len = read_u16(p, PAGE_HEADER_SIZE + ITEM_ID_SIZE * i + 2) as usize;
        assert(item_offset(p@, i as int) == off);
        let mut item: Vec<u8> = Vec::new();
        let mut j: usize = 0;
        while j < len
            invariant
                page_wf(p@),
                i < n,
                n == num_items(p@),
                off == item_offset(p@, i as int),
                len == item_len(p@, i as int),
                j <= len,
                item@ =~= p@.subrange(off as int, off + j),
            decreases len - j,
        {
            item.push(p[off + j]);
            j = j + 1;
        }
        r.push(item);
        i = i + 1;
    }
    r
}

/// Whether the bytes `p` form a well-formed slotted page.
pub fn page_check(p: &[u8]) -> (r: bool)
    ensures
        r == page_wf(p@),
{
    if p.len() != PAGE_SIZE {
        return false;
    }
    let start = read_u16(p, 0) as usize;
    let end = read_u16(p, 2) as usize;
    let size = read_u16(p, 4) as usize;
    if start < PAGE_HEADER_SIZE || start > end || end > PAGE_SIZE || size != PAGE_SIZE
        || (start - PAGE_HEADER_SIZE) % ITEM_ID_SIZE != 0 {
        return false;
    }
    let n = (start - PAGE_HEADER_SIZE) / ITEM_ID_SIZE;
    let mut i: usize = 0;
    let mut prev_off: usize = PAGE_SIZE;
    while i < n
        invariant
            p@.len() == PAGE_SIZE,
            PAGE_HEADER_SIZE <= start_free(p@) <= end_free(p@) <= PAGE_SIZE,
            (start_free(p@) - PAGE_HEADER_SIZE) % (ITEM_ID_SIZE as int) == 0,
            u16_at(p@, 4) == PAGE_SIZE,
            n == num_items(p@),
            end == end_free(p@),
            i <= n,
            i == 0 ==> prev_off == PAGE_SIZE,
            i > 0 ==> prev_off == item_offset(p@, i - 1),
            forall|k: int|
                0 <= k < i ==> {
                    &&& end_free(p@) <= #[trigger] item_offset(p@, k)
                    &&& 0 < item_len(p@, k)
                    &&& item_offset(p@, k) + item_len(p@, k) <= PAGE_SIZE
                },
            forall|a: int, b: int|
                0 <= a < b < i ==> #[trigger] item_offset(p@, b) + item_len(p@, b)
                    <= #[trigger] item_offset(p@, a),
        decreases n - i,
    {
        let off = read_u16(p, PAGE_HEADER_SIZE + ITEM_ID_SIZE * i) as usize;
        let len = read_u16(p, PAGE_HEADER_SIZE + ITEM_ID_SIZE * i + 2) as usize;
        if off < end || len == 0 || off + len > PAGE_SIZE || off + len > prev_off {
            proof {
                if i > 0 && off + len > prev_off {
                    assert(item_offset(p@, i as int) + item_len(p@, i as int) > item_offset(p@, i - 1));
                }
            }
            return false;
        }
        proof {
            assert(item_offset(p@, i as int) == off);
            assert(item_len(p@, i as int) == len);
            assert forall|k: int| 0 <= k < i + 1 implies {
                &&& end_free(p@) <= #[trigger] item_offset(p@, k)
                &&& 0 < item_len(p@, k)
                &&& item_offset(p@, k) + item_len(p@, k) <= PAGE_SIZE
            } by {
                if k == i {
                    assert(end_free(p@) == end);
                    assert(off >= end && len > 0 && off + len <= PAGE_SIZE);
                }
            }
            assert forall|a: int, b: int|
                0 <= a < b < i + 1 implies #[trigger] item_offset(p@, b) + item_len(p@, b)
                    <= #[trigger] item_offset(p@, a) by {
                if b == i && a < i - 1 {
                    assert(item_offset(p@, i - 1) + item_len(p@, i - 1) <= item_offset(p@, a));
                }
            }
        }
        prev_off = off;
        i = i + 1;
    }
    true
}

/// The bytes of a fresh slotted page: the header `(6, PAGE_SIZE, PAGE_SIZE)`, then zeros.
pub open spec fn empty_page() -> Seq<u8> {
    Seq::new(PAGE_SIZE as nat, |i: int| if i == 0 { 6u8 } else if i == 3 || i == 5 { 64u8 } else { 0u8 })
}

pub proof fn lemma_empty_page()
    ensures
        page_wf(empty_page()),
        page_items(empty_page()) =~= Seq::<Seq<u8>>::empty(),
        free_space(empty_page()) == PAGE_SIZE - PAGE_HEADER_SIZE,
{
    assert(start_free(empty_page()) == 6);
    assert(end_free(empty_page()) == PAGE_SIZE);
    assert(u16_at(empty_page(), 4) == PAGE_SIZE);
}

/// Adding `payloads` one by one to a fresh page, each add succeeding, leaves a page whose
/// items are exactly those payloads in the order they were added.
pub proof fn law_items_in_insertion_order(states: Seq<Seq<u8>>, payloads: Seq<Seq<u8>>)
    requires
        states.len() == payloads.len() + 1,
        states[0] == empty_page(),
        forall|i: int| 0 <= i < payloads.len() ==> #[trigger] page_items(states[i + 1])
            == page_items(states[i]).push(payloads[i]),
    ensures
        page_items(states.last()) == payloads,
    decreases payloads.len(),
{
    lemma_empty_page();
    if payloads.len() == 0 {
        assert(page_items(states.last()) =~= payloads);
    } else {
        let k = payloads.len() - 1;
        let s2 = states.drop_last();
        let p2 = payloads.drop_last();
        assert forall|i: int| 0 <= i < p2.len() implies #[trigger] page_items(s2[i + 1])
            == page_items(s2[i]).push(p2[i]) by {
            assert(page_items(states[i + 1]) == page_items(states[i]).push(payloads[i]));
        }
        law_items_in_insertion_order(s2, p2);
        assert(page_items(states[k + 1]) == page_items(states[k]).push(payloads[k]));
        assert(page_items(states.last()) =~= payloads);
    }
}

} // verus!
