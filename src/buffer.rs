use std::collections::HashMap;
use vstd::prelude::*;
use crate::bufpage::{empty_page, new_page, PAGE_SIZE};
use crate::pager::{Error, MemPage, PageNumber, Pager};
use crate::rel::Relation;

verus! {

broadcast use vstd::std_specs::hash::group_hash_axioms;

/// One slot of the pool: the page it holds, if any, with its pin count and dirty bit.
struct Frame {
    tag: Option<(u32, u32)>,
    data: Vec<u8>,
    pin: u32,
    dirty: bool,
}

/// A pin on one frame of a [`BufferPool`].
pub struct BufferHandle {
    frame: usize,
}

impl BufferHandle {
    /// Index of the pinned frame.
    pub closed spec fn id(&self) -> int {
        self.frame as int
    }

    /// Index of the pinned frame.
    pub fn frame_index(&self) -> (r: usize)
        ensures
            r == self.id(),
    {
        self.frame
    }
}

/// A fixed number of page frames shared by all relations, with the relations' pagers.
pub struct BufferPool {
    frames: Vec<Frame>,
    pagers: HashMap<u32, Pager>,
}

impl BufferPool {
    pub closed spec fn num_frames(&self) -> int {
        self.frames@.len() as int
    }

    /// The `(relation oid, page number)` loaded in frame `f`.
    pub closed spec fn frame_tag(&self, f: int) -> Option<(u32, u32)> {
        self.frames@[f].tag
    }

    pub closed spec fn frame_pin(&self, f: int) -> int {
        self.frames@[f].pin as int
    }

    pub closed spec fn frame_dirty(&self, f: int) -> bool {
        self.frames@[f].dirty
    }

    pub closed spec fn frame_data(&self, f: int) -> Seq<u8> {
        self.frames@[f].data@
    }

    /// The pages of each relation as its pager holds them.
    pub closed spec fn disk(&self) -> Map<u32, Seq<Seq<u8>>> {
        self.pagers@.map_values(|p: Pager| p.pages())
    }

    pub open spec fn is_resident(&self, oid: u32, n: int) -> bool {
        exists|f: int| 0 <= f < self.num_frames() && self.frame_tag(f) == Some((oid, n as u32))
    }

    /// Page `n` of relation `oid` as a reader sees it: from its frame when resident.
    pub open spec fn page_content(&self, oid: u32, n: int) -> Seq<u8> {
        if self.is_resident(oid, n) {
            self.frame_data(
                choose|f: int| 0 <= f < self.num_frames() && self.frame_tag(f) == Some((oid, n as u32)),
            )
        } else {
            self.disk()[oid][n - 1]
        }
    }

    /// The pages of every known relation, in page order, as readers see them.
    pub open spec fn contents(&self) -> Map<u32, Seq<Seq<u8>>> {
        Map::new(
            |oid: u32| self.disk().contains_key(oid),
            |oid: u32| Seq::new(self.disk()[oid].len(), |i: int| self.page_content(oid, i + 1)),
        )
    }

    pub open spec fn has_free_frame(&self) -> bool {
        exists|f: int| 0 <= f < self.num_frames() && self.frame_pin(f) == 0
    }

    pub open spec fn pins_below_max(&self) -> bool {
        forall|f: int| 0 <= f < self.num_frames() ==> #[trigger] self.frame_pin(f) < u32::MAX
    }

    pub open spec fn valid_handle(&self, h: &BufferHandle) -> bool {
        &&& 0 <= h.id() < self.num_frames()
        &&& self.frame_tag(h.id()) is Some
        &&& self.frame_pin(h.id()) > 0
    }

    closed spec fn pagers_wf(&self) -> bool {
        forall|oid: u32| #[trigger] self.pagers@.contains_key(oid) ==> self.pagers@[oid].wf()
    }

    closed spec fn frame_wf(&self, f: int) -> bool {
        match self.frames@[f].tag {
            Some((o, n)) => {
                &&& self.pagers@.contains_key(o)
                &&& 1 <= n <= self.pagers@[o].pages().len()
                &&& self.frames@[f].data@.len() == PAGE_SIZE
                &&& !self.frames@[f].dirty ==> self.frames@[f].data@ == self.pagers@[o].pages()[n - 1]
            },
            None => self.frames@[f].pin == 0 && !self.frames@[f].dirty,
        }
    }

    closed spec fn tags_unique(&self) -> bool {
        forall|f: int, g: int|
            0 <= f < self.frames@.len() && 0 <= g < self.frames@.len() && f != g
                && #[trigger] self.frames@[f].tag is Some ==> self.frames@[f].tag != #[trigger] self.frames@[g].tag
    }

    pub closed spec fn wf(&self) -> bool {
        &&& self.pagers_wf()
        &&& forall|f: int| 0 <= f < self.frames@.len() ==> #[trigger] self.frame_wf(f)
        &&& self.tags_unique()
    }

    /// The frame loaded with a page shows that page's contents.
    proof fn lemma_frame_content(&self, f: int, o: u32, n: u32)
        requires
            self.wf(),
            0 <= f < self.num_frames(),
            self.frame_tag(f) == Some((o, n)),
        ensures
            self.page_content(o, n as int) == self.frame_data(f),
    {
        assert(self.frames@[f].tag is Some);
        assert(self.is_resident(o, n as int));
        let c = choose|c: int| 0 <= c < self.num_frames() && self.frame_tag(c) == Some((o, n));
        if c != f {
            assert(self.frames@[f].tag != self.frames@[c].tag);
        }
    }

    /// Facts that hold of every well-formed pool.
    pub proof fn lemma_wf(&self)
        requires
            self.wf(),
        ensures
            self.contents().dom() == self.disk().dom(),
            forall|oid: u32| #[trigger] self.contents().contains_key(oid)
                ==> self.contents()[oid].len() == self.disk()[oid].len()
                && self.disk()[oid].len() < u32::MAX,
            forall|oid: u32, i: int| self.contents().contains_key(oid) && 0 <= i < self.contents()[oid].len()
                ==> (#[trigger] self.contents()[oid][i]).len() == PAGE_SIZE,
            forall|f: int| 0 <= f < self.num_frames() && #[trigger] self.frame_tag(f) is Some ==> {
                let (o, n) = self.frame_tag(f)->0;
                &&& self.contents().contains_key(o)
                &&& 1 <= n <= self.contents()[o].len()
                &&& self.contents()[o][n - 1] == self.frame_data(f)
            },
            forall|f: int| 0 <= f < self.num_frames() && #[trigger] self.frame_tag(f) is None
                ==> self.frame_pin(f) == 0,
    {
        assert(self.contents().dom() =~= self.disk().dom());
        assert forall|oid: u32| #[trigger] self.contents().contains_key(oid)
            implies self.disk()[oid].len() < u32::MAX by {
            self.pagers@[oid].lemma_wf();
        }
        assert forall|oid: u32, i: int| self.contents().contains_key(oid) && 0 <= i < self.contents()[oid].len()
            implies (#[trigger] self.contents()[oid][i]).len() == PAGE_SIZE by {
            self.pagers@[oid].lemma_wf();
            if self.is_resident(oid, i + 1) {
                let c = choose|c: int| 0 <= c < self.num_frames() && self.frame_tag(c) == Some((oid, (i + 1) as u32));
                assert(self.frame_wf(c));
            }
        }
        assert forall|f: int| 0 <= f < self.num_frames() && #[trigger] self.frame_tag(f) is Some implies {
            let (o, n) = self.frame_tag(f)->0;
            &&& self.contents().contains_key(o)
            &&& 1 <= n <= self.contents()[o].len()
            &&& self.contents()[o][n - 1] == self.frame_data(f)
        } by {
            assert(self.frame_wf(f));
            let (o, n) = self.frame_tag(f)->0;
            self.lemma_frame_content(f, o, n);
        }
        assert forall|f: int| 0 <= f < self.num_frames() && #[trigger] self.frame_tag(f) is None
            implies self.frame_pin(f) == 0 by {
            assert(self.frame_wf(f));
        }
    }

    /// A pool of `capacity` empty frames and no relations.
    pub fn new(capacity: usize) -> (r: BufferPool)
        ensures
            r.wf(),
            r.num_frames() == capacity,
            r.contents() == Map::<u32, Seq<Seq<u8>>>::empty(),
            forall|f: int| 0 <= f < capacity ==> #[trigger] r.frame_tag(f) is None,
    {
        let mut frames: Vec<Frame> = Vec::new();
        let mut i: usize = 0;
        while i < capacity
            invariant
                i <= capacity,
                frames@.len() == i,
                forall|f: int| 0 <= f < i ==> (#[trigger] frames@[f]).tag is None && frames@[f].pin == 0
                    && !frames@[f].dirty,
            decreases capacity - i,
        {
            frames.push(Frame { tag: None, data: Vec::new(), pin: 0, dirty: false });
            i = i + 1;
        }
        let r = BufferPool { frames, pagers: HashMap::new() };
        assert(r.contents() =~= Map::<u32, Seq<Seq<u8>>>::empty());
        r
    }

    /// Makes `pager` the store of relation `oid`.
    pub fn register_pager(&mut self, oid: u32, pager: Pager) -> (r: Result<(), Error>)
        requires
            old(self).wf(),
            pager.wf(),
        ensures
            final(self).wf(),
            r is Ok <==> !old(self).contents().contains_key(oid),
            r matches Err(e) ==> e == Error::AlreadyExists && *final(self) == *old(self),
            r is Ok ==> final(self).contents() == old(self).contents().insert(oid, pager.pages()),
            final(self).num_frames() == old(self).num_frames(),
            forall|f: int| #![trigger final(self).frame_tag(f)] #![trigger final(self).frame_pin(f)]
                0 <= f < old(self).num_frames() ==> final(self).frame_tag(f)
                == old(self).frame_tag(f) && final(self).frame_pin(f) == old(self).frame_pin(f),
    {
        if self.pagers.contains_key(&oid) {
            return Err(Error::AlreadyExists);
        }
        let ghost a = *self;
        self.pagers.insert(oid, pager);
        proof {
            a.lemma_wf();
            assert(self.disk() =~= a.disk().insert(oid, pager.pages()));
            assert forall|g: int| #[trigger] self.frame_tag(g) == a.frame_tag(g) by {}
            assert forall|g: int| 0 <= g < self.frames@.len() implies #[trigger] self.frame_wf(g) by {
                assert(a.frame_wf(g));
            }
            assert(self.tags_unique());
            assert forall|o: u32, i: int| a.disk().contains_key(o) && 0 <= i < a.disk()[o].len()
                implies self.page_content(o, i + 1) == #[trigger] a.page_content(o, i + 1) by {
                if a.is_resident(o, i + 1) {
                    let g = choose|g: int| 0 <= g < a.num_frames() && a.frame_tag(g) == Some((o, (i + 1) as u32));
                    a.lemma_frame_content(g, o, (i + 1) as u32);
                    self.lemma_frame_content(g, o, (i + 1) as u32);
                } else {
                    assert(!self.is_resident(o, i + 1));
                }
            }
            assert forall|i: int| 0 <= i < pager.pages().len()
                implies !#[trigger] self.is_resident(oid, i + 1) by {
                if self.is_resident(oid, i + 1) {
                    let g = choose|g: int| 0 <= g < self.num_frames() && self.frame_tag(g) == Some((oid, (i + 1) as u32));
                    assert(a.frames@[g].tag is Some);
                }
            }
            assert forall|o: u32| #[trigger] self.contents().contains_key(o) implies self.contents()[o]
                =~= a.contents().insert(oid, pager.pages())[o] by {
                if o != oid {
                    assert forall|i: int| 0 <= i < a.disk()[o].len() implies self.contents()[o][i]
                        == a.contents()[o][i] by {
                        assert(a.page_content(o, i + 1) == self.page_content(o, i + 1));
                    }
                } else {
                    assert forall|i: int| 0 <= i < pager.pages().len() implies self.contents()[o][i]
                        == pager.pages()[i] by {
                        assert(!self.is_resident(oid, i + 1));
                    }
                }
            }
            assert(self.contents() =~= a.contents().insert(oid, pager.pages()));
        }
        Ok(())
    }

    /// The pager of relation `oid`, if it is known.
    pub fn pager(&self, oid: u32) -> (r: Option<&Pager>)
        requires
            self.wf(),
        ensures
            r is Some <==> self.disk().contains_key(oid),
            r matches Some(p) ==> p.wf() && p.pages() == self.disk()[oid],
    {
        self.pagers.get(&oid)
    }

    /// The frame holding page `n` of relation `oid`, if any.
    fn find_frame(&self, oid: u32, n: u32) -> (r: Option<usize>)
        requires
            self.wf(),
        ensures
            r matches Some(f) ==> 0 <= f < self.num_frames() && self.frame_tag(f as int) == Some((oid, n)),
            r is None ==> forall|f: int| 0 <= f < self.num_frames() ==> #[trigger] self.frame_tag(f) != Some((oid, n)),
    {
        let mut i: usize = 0;
        while i < self.frames.len()
            invariant
                i <= self.frames@.len(),
                forall|f: int| 0 <= f < i ==> #[trigger] self.frame_tag(f) != Some((oid, n)),
            decreases self.frames@.len() - i,
        {
            match self.frames[i].tag {
                Some((o, p)) => {
                    if o == oid && p == n {
                        return Some(i);
                    }
                },
                None => {},
            }
            i = i + 1;
        }
        None
    }

    /// An unpinned frame, preferring an empty one.
    fn find_victim(&self) -> (r: Option<usize>)
        requires
            self.wf(),
        ensures
            r matches Some(f) ==> 0 <= f < self.num_frames() && self.frame_pin(f as int) == 0,
            r is None <==> !self.has_free_frame(),
    {
        let mut i: usize = 0;
        while i < self.frames.len()
            invariant
                self.wf(),
                i <= self.frames@.len(),
            decreases self.frames@.len() - i,
        {
            if self.frames[i].tag.is_none() {
                proof {
                    self.lemma_wf();
                    assert(self.frame_tag(i as int) is None);
                }
                return Some(i);
            }
            i = i + 1;
        }
        let mut i: usize = 0;
        while i < self.frames.len()
            invariant
                i <= self.frames@.len(),
                forall|f: int| 0 <= f < i ==> #[trigger] self.frame_pin(f) != 0,
            decreases self.frames@.len() - i,
        {
            if self.frames[i].pin == 0 {
                assert(self.frame_pin(i as int) == 0);
                return Some(i);
            }
            i = i + 1;
        }
        None
    }

    /// Stores `data` as page `n` of relation `o` in its pager.
    fn write_back(&mut self, o: u32, n: u32, data: &Vec<u8>)
        requires
            old(self).pagers_wf(),
            old(self).disk().contains_key(o),
            1 <= n <= old(self).disk()[o].len(),
            data@.len() == PAGE_SIZE,
        ensures
            final(self).pagers_wf(),
            final(self).frames == old(self).frames,
            final(self).disk() == old(self).disk().insert(o, old(self).disk()[o].update(n - 1, data@)),
    {
        let ghost a = *self;
        let page = MemPage { number: n, data: data.clone() };
        match self.pagers.remove(&o) {
            Some(mut pg) => {
                let _ = pg.write_page(&page);
                self.pagers.insert(o, pg);
                assert(self.disk() =~= a.disk().insert(o, a.disk()[o].update(n - 1, data@)));
            },
            None => {},
        }
    }

    /// Empties unpinned frame `f`, writing its page back first when dirty.
    fn evict(&mut self, f: usize)
        requires
            old(self).wf(),
            0 <= f < old(self).num_frames(),
            old(self).frame_pin(f as int) == 0,
        ensures
            final(self).wf(),
            final(self).contents() == old(self).contents(),
            final(self).num_frames() == old(self).num_frames(),
            final(self).frame_tag(f as int) is None,
            forall|g: int| 0 <= g < old(self).num_frames() && g != f ==> {
                &&& final(self).frame_tag(g) == old(self).frame_tag(g)
                &&& final(self).frame_pin(g) == old(self).frame_pin(g)
                &&& final(self).frame_dirty(g) == old(self).frame_dirty(g)
                &&& final(self).frame_data(g) == old(self).frame_data(g)
            },
            final(self).frame_pin(f as int) == 0,
    {
        let ghost a = *self;
        match self.frames[f].tag {
            None => {
                return;
            },
            Some((o, n)) => {
                proof {
                    a.lemma_frame_content(f as int, o, n);
                    assert(a.frame_wf(f as int));
                }
                let data = self.frames[f].data.clone();
                if self.frames[f].dirty {
                    self.write_back(o, n, &data);
                } else {
                    assert(a.disk()[o][n - 1] == data@);
                    assert(a.disk()[o].update(n - 1, data@) =~= a.disk()[o]);
                    assert(a.disk() =~= a.disk().insert(o, a.disk()[o].update(n - 1, data@)));
                }
                self.frames.set(f, Frame { tag: None, data, pin: 0, dirty: false });
                proof {
                    let b = *self;
                    a.lemma_wf();
                    assert forall|g: int| 0 <= g < b.frames@.len() implies #[trigger] b.frame_wf(g) by {
                        assert(a.frame_wf(g));
                        if g != f && a.frames@[g].tag is Some {
                            assert(a.frames@[f as int].tag != a.frames@[g].tag);
                            let (o2, n2) = a.frames@[g].tag->0;
                            assert(a.disk().contains_key(o2));
                            assert(b.disk().contains_key(o2));
                            assert(b.pagers@.contains_key(o2));
                            assert(b.disk()[o2] == b.pagers@[o2].pages());
                            assert(a.disk()[o2] == a.pagers@[o2].pages());
                        }
                    }
                    assert(b.tags_unique());
                    assert forall|g: int| 0 <= g < b.num_frames() && g != f implies #[trigger] b.frame_tag(g) == a.frame_tag(g) by {}
                    assert(b.disk().dom() =~= a.disk().dom());
                    assert forall|p: u32| #[trigger] b.pagers@.contains_key(p) implies b.pagers@[p].wf() by {}
                    assert forall|oo: u32, i: int| a.disk().contains_key(oo) && 0 <= i < a.disk()[oo].len()
                        implies b.disk()[oo].len() == a.disk()[oo].len() && b.page_content(oo, i + 1) == #[trigger] a.page_content(oo, i + 1) by {
                        if oo == o && i + 1 == n {
                            if b.is_resident(oo, i + 1) {
                                let g = choose|g: int| 0 <= g < b.num_frames() && b.frame_tag(g) == Some((oo, (i + 1) as u32));
                                assert(a.frames@[g].tag is Some);
                                assert(a.frames@[f as int].tag != a.frames@[g].tag);
                            }
                        } else if a.is_resident(oo, i + 1) {
                            let g = choose|g: int| 0 <= g < a.num_frames() && a.frame_tag(g) == Some((oo, (i + 1) as u32));
                            a.lemma_frame_content(g, oo, (i + 1) as u32);
                            b.lemma_frame_content(g, oo, (i + 1) as u32);
                        } else {
                            assert(!b.is_resident(oo, i + 1));
                        }
                    }
                    assert forall|oo: u32| #[trigger] b.contents().contains_key(oo) implies b.contents()[oo]
                        =~= a.contents()[oo] by {
                        assert forall|i: int| 0 <= i < a.disk()[oo].len() implies b.contents()[oo][i]
                            == a.contents()[oo][i] by {
                            assert(a.page_content(oo, i + 1) == b.page_content(oo, i + 1));
                        }
                    }
                    assert(b.contents() =~= a.contents());
                }
            },
        }
    }

    /// Loads page `n` of relation `o` into the empty frame `f`, pinned once and clean.
    fn load_into(&mut self, f: usize, o: u32, n: u32)
        requires
            old(self).wf(),
            0 <= f < old(self).num_frames(),
            old(self).frame_tag(f as int) is None,
            old(self).disk().contains_key(o),
            1 <= n <= old(self).disk()[o].len(),
            !old(self).is_resident(o, n as int),
        ensures
            final(self).wf(),
            final(self).contents() == old(self).contents(),
            final(self).num_frames() == old(self).num_frames(),
            final(self).frame_tag(f as int) == Some((o, n)),
            final(self).frame_pin(f as int) == 1,
            !final(self).frame_dirty(f as int),
            forall|g: int| 0 <= g < old(self).num_frames() && g != f ==> {
                &&& final(self).frame_tag(g) == old(self).frame_tag(g)
                &&& final(self).frame_pin(g) == old(self).frame_pin(g)
                &&& final(self).frame_dirty(g) == old(self).frame_dirty(g)
                &&& final(self).frame_data(g) == old(self).frame_data(g)
            },
    {
        let ghost a = *self;
        proof { a.lemma_wf(); }
        let data = match self.pagers.get(&o) {
            Some(pg) => match pg.read_page(n) {
                Ok(m) => m.data,
                Err(_) => Vec::new(),
            },
            None => Vec::new(),
        };
        proof {
            assert(a.disk()[o] == a.pagers@[o].pages());
            a.pagers@[o].lemma_wf();
        }
        self.frames.set(f, Frame { tag: Some((o, n)), data, pin: 1, dirty: false });
        proof {
            let b = *self;
            assert forall|g: int| 0 <= g < b.num_frames() && g != f implies #[trigger] b.frame_tag(g) == a.frame_tag(g) by {}
            assert forall|g: int| 0 <= g < b.frames@.len() implies #[trigger] b.frame_wf(g) by {
                assert(a.frame_wf(g));
            }
            assert forall|g: int, h: int|
                0 <= g < b.frames@.len() && 0 <= h < b.frames@.len() && g != h
                    && #[trigger] b.frames@[g].tag is Some implies b.frames@[g].tag != #[trigger] b.frames@[h].tag by {
                if g == f {
                    assert(a.frame_tag(h) != Some((o, n)));
                } else if h == f {
                    assert(a.frame_tag(g) != Some((o, n)));
                } else {
                    assert(a.frames@[g].tag != a.frames@[h].tag);
                }
            }
            assert(b.tags_unique());
            assert forall|oo: u32| #[trigger] b.contents().contains_key(oo) implies b.contents()[oo]
                =~= a.contents()[oo] by {
                assert forall|i: int| 0 <= i < a.disk()[oo].len() implies b.contents()[oo][i]
                    == a.contents()[oo][i] by {
                    if oo == o && i + 1 == n {
                        b.lemma_frame_content(f as int, o, n);
                    } else if a.is_resident(oo, i + 1) {
                        let g = choose|g: int| 0 <= g < a.num_frames() && a.frame_tag(g) == Some((oo, (i + 1) as u32));
                        a.lemma_frame_content(g, oo, (i + 1) as u32);
                        b.lemma_frame_content(g, oo, (i + 1) as u32);
                    } else {
                        assert(!b.is_resident(oo, i + 1));
                    }
                }
            }
            assert(b.contents() =~= a.contents());
        }
    }

    /// Pins page `n` of `rel`, loading it into a frame when it is not resident. A miss
    /// takes an empty frame, else an unpinned one, whose page is written back when dirty.
    pub fn fetch_buffer(&mut self, rel: &Relation, n: PageNumber) -> (r: Result<BufferHandle, Error>)
        requires
            old(self).wf(),
            old(self).pins_below_max(),
        ensures
            final(self).wf(),
            final(self).contents() == old(self).contents(),
            final(self).num_frames() == old(self).num_frames(),
            !old(self).contents().contains_key(rel.oid) ==> r == Err::<BufferHandle, Error>(Error::RelationNotFound),
            old(self).contents().contains_key(rel.oid) && !(1 <= n <= old(self).contents()[rel.oid].len())
                ==> r == Err::<BufferHandle, Error>(Error::IncorrectPageNumber),
            old(self).contents().contains_key(rel.oid) && 1 <= n <= old(self).contents()[rel.oid].len()
                ==> (r is Ok <==> (old(self).is_resident(rel.oid, n as int) || old(self).has_free_frame())),
            old(self).contents().contains_key(rel.oid) && 1 <= n <= old(self).contents()[rel.oid].len()
                && !old(self).is_resident(rel.oid, n as int) && !old(self).has_free_frame()
                ==> r == Err::<BufferHandle, Error>(Error::BufferPoolExhausted),
            r matches Err(e) ==> e == Error::RelationNotFound || e == Error::IncorrectPageNumber
                || e == Error::BufferPoolExhausted,
            r is Err ==> *final(self) == *old(self),
            forall|g: int| 0 <= g < old(self).num_frames() && #[trigger] final(self).frame_dirty(g)
                ==> old(self).frame_dirty(g),
            r matches Ok(h) ==> {
                &&& 0 <= h.id() < final(self).num_frames()
                &&& final(self).frame_tag(h.id()) == Some((rel.oid, n))
                &&& final(self).frame_data(h.id()) == old(self).contents()[rel.oid][n - 1]
                &&& final(self).frame_pin(h.id()) == old(self).frame_pin(h.id()) + 1
                &&& final(self).valid_handle(&h)
                &&& (forall|f: int| 0 <= f < old(self).num_frames() && old(self).frame_tag(f) == Some((rel.oid, n))
                    ==> h.id() == f && final(self).frame_pin(f) == old(self).frame_pin(f) + 1
                        && final(self).frame_dirty(f) == old(self).frame_dirty(f))
                &&& (!old(self).is_resident(rel.oid, n as int) ==> old(self).frame_pin(h.id()) == 0
                    && final(self).frame_pin(h.id()) == 1 && !final(self).frame_dirty(h.id()))
                &&& forall|g: int| #![trigger final(self).frame_tag(g)] #![trigger final(self).frame_pin(g)] #![trigger final(self).frame_dirty(g)]
                    0 <= g < old(self).num_frames() && g != h.id() ==> {
                    &&& final(self).frame_tag(g) == old(self).frame_tag(g)
                    &&& final(self).frame_pin(g) == old(self).frame_pin(g)
                    &&& final(self).frame_dirty(g) == old(self).frame_dirty(g)
                }
            },
    {
        proof { self.lemma_wf(); }
        let oid = rel.oid;
        let total = match self.pagers.get(&oid) {
            Some(pg) => match pg.size() {
                Ok(t) => t,
                Err(_) => 0,
            },
            None => {
                return Err(Error::RelationNotFound);
            },
        };
        proof { assert(self.disk()[oid] == self.pagers@[oid].pages()); }
        if n == 0 || n > total {
            return Err(Error::IncorrectPageNumber);
        }
        match self.find_frame(oid, n) {
            Some(f) => {
                let ghost a = *self;
                let old_frame = self.frames[f].pin;
                assert(a.frame_pin(f as int) < u32::MAX);
                let tag = self.frames[f].tag;
                let dirty = self.frames[f].dirty;
                let data = self.frames[f].data.clone();
                self.frames.set(f, Frame { tag, data, pin: old_frame + 1, dirty });
                proof {
                    let b = *self;
                    assert forall|g: int| 0 <= g < b.num_frames() implies #[trigger] b.frame_tag(g) == a.frame_tag(g) by {}
                    assert forall|g: int| 0 <= g < b.frames@.len() implies #[trigger] b.frame_wf(g) by {
                        assert(a.frame_wf(g));
                    }
                    assert forall|g: int, h: int|
                        0 <= g < b.frames@.len() && 0 <= h < b.frames@.len() && g != h
                            && #[trigger] b.frames@[g].tag is Some implies b.frames@[g].tag != #[trigger] b.frames@[h].tag by {
                        assert(a.frames@[g].tag != a.frames@[h].tag);
                    }
                    assert(b.tags_unique());
                    assert forall|oo: u32| #[trigger] b.contents().contains_key(oo) implies b.contents()[oo]
                        =~= a.contents()[oo] by {
                        assert forall|i: int| 0 <= i < a.disk()[oo].len() implies b.contents()[oo][i]
                            == a.contents()[oo][i] by {
                            if a.is_resident(oo, i + 1) {
                                let g = choose|g: int| 0 <= g < a.num_frames() && a.frame_tag(g) == Some((oo, (i + 1) as u32));
                                a.lemma_frame_content(g, oo, (i + 1) as u32);
                                b.lemma_frame_content(g, oo, (i + 1) as u32);
                            } else {
                                assert(!b.is_resident(oo, i + 1));
                            }
                        }
                    }
                    assert(b.contents() =~= a.contents());
                    a.lemma_frame_content(f as int, oid, n);
                    assert forall|g: int| 0 <= g < a.num_frames() && a.frame_tag(g) == Some((oid, n)) implies g == f by {
                        if g != f {
                            assert(a.frames@[g].tag != a.frames@[f as int].tag);
                        }
                    }
                }
                Ok(BufferHandle { frame: f })
            },
            None => {
                let v = match self.find_victim() {
                    Some(v) => v,
                    None => {
                        return Err(Error::BufferPoolExhausted);
                    },
                };
                let ghost a = *self;
                self.evict(v);
                proof {
                    assert(self.contents().contains_key(oid));
                    self.lemma_wf();
                    assert(self.disk()[oid].len() == a.disk()[oid].len());
                    if self.is_resident(oid, n as int) {
                        let g = choose|g: int| 0 <= g < self.num_frames() && self.frame_tag(g) == Some((oid, n));
                        assert(g != v);
                        assert(a.frame_tag(g) == Some((oid, n)));
                    }
                }
                self.load_into(v, oid, n);
                proof {
                    self.lemma_wf();
                }
                Ok(BufferHandle { frame: v })
            },
        }
    }

    /// Makes frame `f` hold `data` as page `n` of relation `o`, dirty, with pin count `pin`.
    fn put_frame(&mut self, f: usize, o: u32, n: u32, data: Vec<u8>, pin: u32)
        requires
            old(self).wf(),
            0 <= f < old(self).num_frames(),
            data@.len() == PAGE_SIZE,
            old(self).disk().contains_key(o),
            1 <= n <= old(self).disk()[o].len(),
            old(self).frame_tag(f as int) == Some((o, n)) || (old(self).frame_tag(f as int) is None
                && !old(self).is_resident(o, n as int)),
        ensures
            final(self).wf(),
            final(self).contents() == old(self).contents().insert(o, old(self).contents()[o].update(n - 1, data@)),
            final(self).num_frames() == old(self).num_frames(),
            final(self).frame_tag(f as int) == Some((o, n)),
            final(self).frame_pin(f as int) == pin,
            final(self).frame_dirty(f as int),
            final(self).frame_data(f as int) == data@,
            forall|g: int| 0 <= g < old(self).num_frames() && g != f ==> {
                &&& final(self).frame_tag(g) == old(self).frame_tag(g)
                &&& final(self).frame_pin(g) == old(self).frame_pin(g)
                &&& final(self).frame_dirty(g) == old(self).frame_dirty(g)
                &&& final(self).frame_data(g) == old(self).frame_data(g)
            },
    {
        let ghost a = *self;
        proof { a.lemma_wf(); }
        self.frames.set(f, Frame { tag: Some((o, n)), data, pin, dirty: true });
        proof {
            let b = *self;
            assert forall|g: int| 0 <= g < b.num_frames() && g != f implies #[trigger] b.frame_tag(g) == a.frame_tag(g) by {}
            assert forall|g: int| 0 <= g < b.frames@.len() implies #[trigger] b.frame_wf(g) by {
                assert(a.frame_wf(g));
            }
            assert forall|g: int, h: int|
                0 <= g < b.frames@.len() && 0 <= h < b.frames@.len() && g != h
                    && #[trigger] b.frames@[g].tag is Some implies b.frames@[g].tag != #[trigger] b.frames@[h].tag by {
                if g == f {
                    if a.frame_tag(f as int) is Some {
                        assert(a.frames@[f as int].tag != a.frames@[h].tag);
                    } else {
                        assert(a.frame_tag(h) != Some((o, n)));
                    }
                } else if h == f {
                    if a.frame_tag(f as int) is Some {
                        assert(a.frames@[g].tag != a.frames@[f as int].tag);
                    } else {
                        assert(a.frame_tag(g) != Some((o, n)));
                    }
                } else {
                    assert(a.frames@[g].tag != a.frames@[h].tag);
                }
            }
            assert(b.tags_unique());
            let expect = a.contents().insert(o, a.contents()[o].update(n - 1, data@));
            assert forall|oo: u32| #[trigger] b.contents().contains_key(oo) implies b.contents()[oo]
                =~= expect[oo] by {
                assert forall|i: int| 0 <= i < a.disk()[oo].len() implies b.contents()[oo][i]
                    == expect[oo][i] by {
                    if oo == o && i + 1 == n {
                        b.lemma_frame_content(f as int, o, n);
                    } else if a.is_resident(oo, i + 1) {
                        let g = choose|g: int| 0 <= g < a.num_frames() && a.frame_tag(g) == Some((oo, (i + 1) as u32));
                        a.lemma_frame_content(g, oo, (i + 1) as u32);
                        assert(g != f);
                        b.lemma_frame_content(g, oo, (i + 1) as u32);
                    } else {
                        assert(!b.is_resident(oo, i + 1));
                    }
                }
            }
            assert(b.contents() =~= expect);
        }
    }

    /// Appends a zeroed page to relation `o` and returns its number.
    fn grow(&mut self, o: u32) -> (r: u32)
        requires
            old(self).wf(),
            old(self).disk().contains_key(o),
            old(self).disk()[o].len() < u32::MAX - 1,
        ensures
            final(self).wf(),
            r == old(self).disk()[o].len() + 1,
            final(self).disk() == old(self).disk().insert(o, old(self).disk()[o].push(Seq::new(PAGE_SIZE as nat, |i: int| 0u8))),
            final(self).contents() == old(self).contents().insert(o, old(self).contents()[o].push(Seq::new(PAGE_SIZE as nat, |i: int| 0u8))),
            final(self).frames == old(self).frames,
    {
        let ghost a = *self;
        proof { a.lemma_wf(); }
        let ghost zero = Seq::new(PAGE_SIZE as nat, |i: int| 0u8);
        let mut r: u32 = 0;
        match self.pagers.remove(&o) {
            Some(mut pg) => {
                r = pg.allocate_page();
                self.pagers.insert(o, pg);
                assert(self.disk() =~= a.disk().insert(o, a.disk()[o].push(zero)));
            },
            None => {},
        }
        proof {
            let b = *self;
            assert forall|g: int| 0 <= g < b.num_frames() implies #[trigger] b.frame_tag(g) == a.frame_tag(g) by {}
            assert forall|g: int| 0 <= g < b.frames@.len() implies #[trigger] b.frame_wf(g) by {
                assert(a.frame_wf(g));
                if a.frames@[g].tag is Some {
                    let (o2, n2) = a.frames@[g].tag->0;
                    assert(a.disk().contains_key(o2));
                    assert(b.disk().contains_key(o2));
                    assert(b.disk()[o2] == b.pagers@[o2].pages());
                    assert(a.disk()[o2] == a.pagers@[o2].pages());
                }
            }
            assert(b.tags_unique());
            let expect = a.contents().insert(o, a.contents()[o].push(zero));
            assert forall|oo: u32| #[trigger] b.contents().contains_key(oo) implies b.contents()[oo]
                =~= expect[oo] by {
                assert forall|i: int| 0 <= i < b.disk()[oo].len() implies b.contents()[oo][i]
                    == expect[oo][i] by {
                    if a.is_resident(oo, i + 1) {
                        let g = choose|g: int| 0 <= g < a.num_frames() && a.frame_tag(g) == Some((oo, (i + 1) as u32));
                        a.lemma_frame_content(g, oo, (i + 1) as u32);
                        b.lemma_frame_content(g, oo, (i + 1) as u32);
                    } else if oo == o && i == a.disk()[o].len() {
                        if b.is_resident(oo, i + 1) {
                            let g = choose|g: int| 0 <= g < b.num_frames() && b.frame_tag(g) == Some((oo, (i + 1) as u32));
                            assert(a.frame_wf(g));
                        }
                    } else {
                        assert(!b.is_resident(oo, i + 1));
                    }
                }
            }
            assert(b.contents() =~= expect);
        }
        r
    }

    /// Adds a page to `rel`, initialised as an empty slotted page, and pins it once in a
    /// frame marked dirty.
    pub fn alloc_buffer(&mut self, rel: &Relation) -> (r: Result<BufferHandle, Error>)
        requires
            old(self).wf(),
        ensures
            final(self).wf(),
            final(self).num_frames() == old(self).num_frames(),
            r is Ok <==> old(self).contents().contains_key(rel.oid)
                && old(self).contents()[rel.oid].len() < u32::MAX - 1 && old(self).has_free_frame(),
            !old(self).contents().contains_key(rel.oid) ==> r == Err::<BufferHandle, Error>(Error::RelationNotFound),
            r matches Err(e) ==> e == Error::RelationNotFound || e == Error::IncorrectPageNumber
                || e == Error::BufferPoolExhausted,
            r is Err ==> *final(self) == *old(self),
            r matches Ok(h) ==> {
                let n = old(self).contents()[rel.oid].len() + 1;
                &&& final(self).contents() == old(self).contents().insert(rel.oid,
                    old(self).contents()[rel.oid].push(empty_page()))
                &&& 0 <= h.id() < final(self).num_frames()
                &&& final(self).frame_tag(h.id()) == Some((rel.oid, n as u32))
                &&& old(self).frame_pin(h.id()) == 0
                &&& final(self).frame_pin(h.id()) == 1
                &&& final(self).valid_handle(&h)
                &&& final(self).frame_data(h.id()) == empty_page()
                &&& final(self).frame_dirty(h.id())
                &&& forall|g: int| #![trigger final(self).frame_tag(g)] #![trigger final(self).frame_pin(g)] #![trigger final(self).frame_dirty(g)]
                    0 <= g < old(self).num_frames() && g != h.id() ==> {
                    &&& final(self).frame_tag(g) == old(self).frame_tag(g)
                    &&& final(self).frame_pin(g) == old(self).frame_pin(g)
                    &&& final(self).frame_dirty(g) == old(self).frame_dirty(g)
                }
            },
    {
        proof { self.lemma_wf(); }
        let oid = rel.oid;
        let total = match self.pagers.get(&oid) {
            Some(pg) => match pg.size() {
                Ok(t) => t,
                Err(_) => 0,
            },
            None => {
                return Err(Error::RelationNotFound);
            },
        };
        proof { assert(self.disk()[oid] == self.pagers@[oid].pages()); }
        if total >= u32::MAX - 1 {
            return Err(Error::IncorrectPageNumber);
        }
        let v = match self.find_victim() {
            Some(v) => v,
            None => {
                return Err(Error::BufferPoolExhausted);
            },
        };
        let ghost a = *self;
        self.evict(v);
        proof { self.lemma_wf(); }
        let ghost b = *self;
        let n = self.grow(oid);
        proof {
            assert forall|g: int| 0 <= g < self.num_frames() implies #[trigger] self.frame_tag(g) == b.frame_tag(g) by {}
            if self.is_resident(oid, n as int) {
                let g = choose|g: int| 0 <= g < self.num_frames() && self.frame_tag(g) == Some((oid, n));
                assert(b.frame_tag(g) == Some((oid, n)));
                b.lemma_wf();
            }
        }
        let page = new_page();
        self.put_frame(v, oid, n, page, 1);
        proof {
            crate::bufpage::lemma_empty_page();
            let zero = Seq::new(PAGE_SIZE as nat, |i: int| 0u8);
            assert(a.contents()[oid].push(zero).update(n - 1, empty_page()) =~= a.contents()[oid].push(empty_page()));
            assert(self.contents() =~= a.contents().insert(oid, a.contents()[oid].push(empty_page())));
        }
        Ok(BufferHandle { frame: v })
    }

    /// The bytes of the page pinned by `h`.
    pub fn get_page(&self, h: &BufferHandle) -> (r: &Vec<u8>)
        requires
            self.wf(),
            self.valid_handle(h),
        ensures
            r@ == self.frame_data(h.id()),
    {
        &self.frames[h.frame].data
    }

    /// Replaces the bytes of the page pinned by `h`, and marks its frame dirty.
    pub fn set_page(&mut self, h: &BufferHandle, data: Vec<u8>)
        requires
            old(self).wf(),
            old(self).valid_handle(h),
            data@.len() == PAGE_SIZE,
        ensures
            final(self).wf(),
            ({
                let (o, n) = old(self).frame_tag(h.id())->0;
                final(self).contents() == old(self).contents().insert(o, old(self).contents()[o].update(n - 1, data@))
            }),
            final(self).num_frames() == old(self).num_frames(),
            final(self).frame_data(h.id()) == data@,
            final(self).frame_dirty(h.id()),
            forall|g: int| #![trigger final(self).frame_tag(g)] #![trigger final(self).frame_pin(g)] #![trigger final(self).frame_dirty(g)]
                0 <= g < old(self).num_frames() ==> {
                &&& final(self).frame_tag(g) == old(self).frame_tag(g)
                &&& final(self).frame_pin(g) == old(self).frame_pin(g)
                &&& g != h.id() ==> final(self).frame_dirty(g) == old(self).frame_dirty(g)
            },
    {
        proof {
            self.lemma_wf();
            assert(self.frame_wf(h.id()));
        }
        let (o, n) = match self.frames[h.frame].tag {
            Some(t) => t,
            None => (0, 0),
        };
        let pin = self.frames[h.frame].pin;
        self.put_frame(h.frame, o, n, data, pin);
    }

    /// Drops one pin of `h`'s frame; the frame becomes dirty when `made_dirty` is set.
    pub fn unpin_buffer(&mut self, h: BufferHandle, made_dirty: bool) -> (r: Result<(), Error>)
        requires
            old(self).wf(),
            old(self).valid_handle(&h),
        ensures
            r is Ok,
            final(self).wf(),
            final(self).contents() == old(self).contents(),
            final(self).num_frames() == old(self).num_frames(),
            final(self).frame_pin(h.id()) == old(self).frame_pin(h.id()) - 1,
            final(self).frame_dirty(h.id()) == (old(self).frame_dirty(h.id()) || made_dirty),
            forall|g: int| #![trigger final(self).frame_tag(g)] #![trigger final(self).frame_pin(g)] #![trigger final(self).frame_dirty(g)]
                0 <= g < old(self).num_frames() ==> {
                &&& final(self).frame_tag(g) == old(self).frame_tag(g)
                &&& final(self).frame_data(g) == old(self).frame_data(g)
                &&& g != h.id() ==> final(self).frame_pin(g) == old(self).frame_pin(g)
                &&& g != h.id() ==> final(self).frame_dirty(g) == old(self).frame_dirty(g)
            },
    {
        let ghost a = *self;
        let f = h.frame;
        let tag = self.frames[f].tag;
        let data = self.frames[f].data.clone();
        let pin = self.frames[f].pin - 1;
        let dirty = self.frames[f].dirty || made_dirty;
        self.frames.set(f, Frame { tag, data, pin, dirty });
        proof {
            let b = *self;
            assert forall|g: int| 0 <= g < b.num_frames() implies #[trigger] b.frame_tag(g) == a.frame_tag(g) by {}
            assert forall|g: int| 0 <= g < b.frames@.len() implies #[trigger] b.frame_wf(g) by {
                assert(a.frame_wf(g));
            }
            assert forall|g: int, k: int|
                0 <= g < b.frames@.len() && 0 <= k < b.frames@.len() && g != k
                    && #[trigger] b.frames@[g].tag is Some implies b.frames@[g].tag != #[trigger] b.frames@[k].tag by {
                assert(a.frames@[g].tag != a.frames@[k].tag);
            }
            assert(b.tags_unique());
            assert forall|oo: u32| #[trigger] b.contents().contains_key(oo) implies b.contents()[oo]
                =~= a.contents()[oo] by {
                assert forall|i: int| 0 <= i < a.disk()[oo].len() implies b.contents()[oo][i]
                    == a.contents()[oo][i] by {
                    if a.is_resident(oo, i + 1) {
                        a.lemma_wf();
                        let g = choose|g: int| 0 <= g < a.num_frames() && a.frame_tag(g) == Some((oo, (i + 1) as u32));
                        a.lemma_frame_content(g, oo, (i + 1) as u32);
                        b.lemma_frame_content(g, oo, (i + 1) as u32);
                    } else {
                        assert(!b.is_resident(oo, i + 1));
                    }
                }
            }
            assert(b.contents() =~= a.contents());
        }
        Ok(())
    }

    /// Writes every dirty frame back to its relation's pager and marks it clean.
    pub fn flush_all_buffers(&mut self) -> (r: Result<(), Error>)
        requires
            old(self).wf(),
        ensures
            r is Ok,
            final(self).wf(),
            final(self).contents() == old(self).contents(),
            final(self).disk() == final(self).contents(),
            final(self).num_frames() == old(self).num_frames(),
            forall|g: int| #![trigger final(self).frame_tag(g)] #![trigger final(self).frame_pin(g)] #![trigger final(self).frame_dirty(g)]
                0 <= g < old(self).num_frames() ==> {
                &&& final(self).frame_tag(g) == old(self).frame_tag(g)
                &&& final(self).frame_pin(g) == old(self).frame_pin(g)
                &&& !final(self).frame_dirty(g)
            },
    {
        let ghost a = *self;
        let mut i: usize = 0;
        while i < self.frames.len()
            invariant
                self.wf(),
                self.contents() == a.contents(),
                self.num_frames() == a.num_frames(),
                i <= self.frames@.len(),
                forall|g: int| 0 <= g < a.num_frames() ==> {
                    &&& #[trigger] self.frame_tag(g) == a.frame_tag(g)
                    &&& self.frame_pin(g) == a.frame_pin(g)
                    &&& g < i ==> !self.frame_dirty(g)
                },
            decreases self.frames@.len() - i,
        {
            if self.frames[i].dirty {
                let ghost c = *self;
                proof {
                    c.lemma_wf();
                    assert(c.frame_wf(i as int));
                }
                let (o, n) = match self.frames[i].tag {
                    Some(t) => t,
                    None => (0, 0),
                };
                let data = self.frames[i].data.clone();
                let pin = self.frames[i].pin;
                self.write_back(o, n, &data);
                self.frames.set(i, Frame { tag: Some((o, n)), data, pin, dirty: false });
                proof {
                    let b = *self;
                    c.lemma_frame_content(i as int, o, n);
                    assert forall|g: int| 0 <= g < b.num_frames() implies #[trigger] b.frame_tag(g) == c.frame_tag(g) by {}
                    assert forall|g: int| 0 <= g < b.frames@.len() implies #[trigger] b.frame_wf(g) by {
                        assert(c.frame_wf(g));
                        if g != i && c.frames@[g].tag is Some {
                            assert(c.frames@[i as int].tag != c.frames@[g].tag);
                            let (o2, n2) = c.frames@[g].tag->0;
                            assert(c.disk().contains_key(o2));
                            assert(b.disk().contains_key(o2));
                            assert(b.pagers@.contains_key(o2));
                            assert(b.disk()[o2] == b.pagers@[o2].pages());
                            assert(c.disk()[o2] == c.pagers@[o2].pages());
                        }
                        if g == i {
                            assert(c.disk().contains_key(o));
                            assert(b.disk().contains_key(o));
                            assert(b.pagers@.contains_key(o));
                            assert(b.disk()[o] == b.pagers@[o].pages());
                            assert(b.disk()[o][n - 1] == data@);
                        }
                    }
                    assert forall|g: int, k: int|
                        0 <= g < b.frames@.len() && 0 <= k < b.frames@.len() && g != k
                            && #[trigger] b.frames@[g].tag is Some implies b.frames@[g].tag != #[trigger] b.frames@[k].tag by {
                        assert(c.frames@[g].tag != c.frames@[k].tag);
                    }
                    assert(b.tags_unique());
                    assert forall|oo: u32| #[trigger] b.contents().contains_key(oo) implies b.contents()[oo]
                        =~= c.contents()[oo] by {
                        assert forall|j: int| 0 <= j < c.disk()[oo].len() implies b.contents()[oo][j]
                            == c.contents()[oo][j] by {
                            if c.is_resident(oo, j + 1) {
                                let g = choose|g: int| 0 <= g < c.num_frames() && c.frame_tag(g) == Some((oo, (j + 1) as u32));
                                c.lemma_frame_content(g, oo, (j + 1) as u32);
                                b.lemma_frame_content(g, oo, (j + 1) as u32);
                            } else {
                                assert(!b.is_resident(oo, j + 1));
                                if oo == o {
                                    assert(j + 1 != n);
                                }
                            }
                        }
                    }
                    assert(b.contents() =~= c.contents());
                }
            }
            i = i + 1;
        }
        proof {
            self.lemma_wf();
            assert forall|oo: u32| #[trigger] self.contents().contains_key(oo) implies self.disk()[oo]
                =~= self.contents()[oo] by {
                assert forall|j: int| 0 <= j < self.disk()[oo].len() implies self.disk()[oo][j]
                    == self.contents()[oo][j] by {
                    if self.is_resident(oo, j + 1) {
                        let g = choose|g: int| 0 <= g < self.num_frames() && self.frame_tag(g) == Some((oo, (j + 1) as u32));
                        self.lemma_frame_content(g, oo, (j + 1) as u32);
                        assert(self.frame_wf(g));
                        assert(self.disk()[oo] == self.pagers@[oo].pages());
                    }
                }
            }
            assert(self.disk() =~= self.contents());
        }
        Ok(())
    }
}

} // verus!