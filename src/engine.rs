use vstd::prelude::*;
use crate::buffer::BufferPool;
use crate::bufpage::empty_page;
use crate::catalog::{
    attr_rows, attr_rows_decode, attrs_complete, attrs_of, class_oid, can_create, class_bytes, column_row, has_row_of, bootstrap_attr_rows, bootstrap_class_rows, class_found, class_rows, class_rows_decode,
    decode_class, heap_create, init_database, scannable, Catalog, FIRST_NORMAL_OID, PG_ATTRIBUTE_OID, PG_CLASS_OID,
};
use crate::codec::{le32, serialize_i32};
use crate::heap::{MAX_TUPLE_SIZE, first_fit, heap_insert, heap_scan, inserted_at, rel_tuples, tuples_view, HeapTuple, TupleDesc};
use crate::pager::Error;
use crate::rel::Relation;

verus! {

/// The concatenated stored forms of `vals`.
pub open spec fn i32_row(vals: Seq<i32>) -> Seq<u8>
    decreases vals.len(),
{
    if vals.len() == 0 {
        Seq::empty()
    } else {
        i32_row(vals.drop_last()) + le32(vals.last() as u32)
    }
}

proof fn lemma_i32_row_len(vals: Seq<i32>)
    ensures
        i32_row(vals).len() == 4 * vals.len(),
    decreases vals.len(),
{
    if vals.len() > 0 {
        lemma_i32_row_len(vals.drop_last());
    }
}

/// The storage engine: a buffer pool and the catalog of the databases under `db_data`.
pub struct Engine {
    buffer_pool: BufferPool,
    catalog: Catalog,
    db_data: String,
}

impl Engine {
    pub closed spec fn wf(&self) -> bool {
        self.buffer_pool.wf() && self.buffer_pool.pins_below_max()
            && forall|f: int| 0 <= f < self.buffer_pool.num_frames() ==> #[trigger] self.buffer_pool.frame_pin(f) == 0
    }

    pub closed spec fn pool(&self) -> BufferPool {
        self.buffer_pool
    }

    pub closed spec fn data_dir(&self) -> Seq<char> {
        self.db_data@
    }

    /// The data directory the engine's catalog reads.
    pub closed spec fn catalog_dir(&self) -> Seq<char> {
        self.catalog.db_data@
    }

    pub fn new(buffer_pool: BufferPool, db_data: &str) -> (r: Engine)
        ensures
            r.pool() == buffer_pool,
            r.data_dir() == db_data@,
            r.catalog_dir() == db_data@,
            (buffer_pool.wf() && forall|f: int| 0 <= f < buffer_pool.num_frames() ==> #[trigger] buffer_pool.frame_pin(f) == 0)
                ==> r.wf(),
    {
        proof {
            if buffer_pool.wf() && forall|f: int| 0 <= f < buffer_pool.num_frames() ==> #[trigger] buffer_pool.frame_pin(f) == 0 {
                assert forall|f: int| 0 <= f < buffer_pool.num_frames() implies #[trigger] buffer_pool.frame_pin(f) < u32::MAX by {
                    assert(buffer_pool.frame_pin(f) == 0);
                }
            }
        }
        Engine { buffer_pool, catalog: Catalog::new(db_data), db_data: String::from_str(db_data) }
    }

    /// The buffer pool, for writing its pagers out.
    pub fn buffer_pool(&self) -> (r: &BufferPool)
        ensures
            *r == self.pool(),
    {
        &self.buffer_pool
    }

    proof fn lemma_pins(&self, old_pool: BufferPool)
        requires
            self.buffer_pool.wf(),
            self.buffer_pool.num_frames() == old_pool.num_frames(),
            forall|f: int| 0 <= f < old_pool.num_frames() ==> #[trigger] old_pool.frame_pin(f) == 0,
            forall|f: int| 0 <= f < old_pool.num_frames() ==> #[trigger] self.buffer_pool.frame_pin(f) == old_pool.frame_pin(f),
        ensures
            self.wf(),
    {
        assert forall|f: int| 0 <= f < self.buffer_pool.num_frames() implies #[trigger] self.buffer_pool.frame_pin(f) == 0 by {
            assert(old_pool.frame_pin(f) == 0);
        }
    }

    /// Provisions the catalog of database `db_name`.
    pub fn create_database(&mut self, db_name: &str) -> (r: Result<(), Error>)
        requires
            old(self).wf(),
        ensures
            final(self).wf(),
            old(self).pool().contents().contains_key(PG_CLASS_OID) || old(self).pool().contents().contains_key(PG_ATTRIBUTE_OID)
                ==> r == Err::<(), Error>(Error::AlreadyExists) && final(self).pool() == old(self).pool(),
            !old(self).pool().contents().contains_key(PG_CLASS_OID) && !old(self).pool().contents().contains_key(PG_ATTRIBUTE_OID)
                && old(self).pool().has_free_frame() ==> r is Ok,
            r is Ok ==> class_rows(final(self).pool()) == bootstrap_class_rows()
                && attr_rows(final(self).pool()) == bootstrap_attr_rows(),
    {
        let ghost p0 = self.buffer_pool;
        let r = init_database(&mut self.buffer_pool, self.db_data.as_str(), db_name);
        proof { self.lemma_pins(p0); }
        r
    }

    /// Creates table `rel_name` in `db_name` with `(name, width)` columns; returns its oid.
    pub fn create_table(&mut self, db_name: &str, rel_name: &str, columns: &Vec<(String, usize)>) -> (r: Result<u32, Error>)
        requires
            old(self).wf(),
        ensures
            final(self).wf(),
            r matches Ok(oid) ==> oid >= FIRST_NORMAL_OID && !old(self).pool().contents().contains_key(oid)
                && final(self).pool().contents().contains_key(oid)
                && final(self).pool().contents()[oid] == seq![empty_page()],
            scannable(old(self).pool(), PG_CLASS_OID) && class_found(old(self).pool(), rel_name@)
                ==> r == Err::<u32, Error>(Error::AlreadyExists),
            r == Err::<u32, Error>(Error::AlreadyExists) ==> final(self).pool().contents() == old(self).pool().contents(),
            can_create(old(self).pool(), rel_name@, columns@) ==> r is Ok,
            r matches Ok(oid) ==> attrs_complete(attr_rows(final(self).pool()), oid, columns@.len() as int)
                && !has_row_of(attr_rows(old(self).pool()), oid)
                && forall|x: Seq<u8>| #[trigger] attr_rows(final(self).pool()).contains(x) <==>
                    (attr_rows(old(self).pool()).contains(x)
                    || exists|i: int| 0 <= i < columns@.len() && x == #[trigger] column_row(oid, columns@, i)),
            r matches Ok(oid) ==> {
                let cp = old(self).pool().contents()[PG_CLASS_OID];
                let row = class_bytes(oid, rel_name@);
                &&& old(self).pool().contents().contains_key(PG_CLASS_OID)
                &&& inserted_at(cp, final(self).pool().contents()[PG_CLASS_OID], row, first_fit(cp, row.len() as int))
                &&& forall|k: int| 0 <= k < class_rows(old(self).pool()).len() ==>
                    match decode_class(#[trigger] class_rows(old(self).pool())[k]) {
                        Some((o, _)) => o < oid,
                        None => false,
                    }
            },
    {
        let ghost p0 = self.buffer_pool;
        let r = heap_create(&mut self.buffer_pool, self.db_data.as_str(), db_name, rel_name, columns);
        proof { self.lemma_pins(p0); }
        r
    }

    /// Inserts a row of `i32` values, stored one after another, into table `rel_name`.
    pub fn insert_into(&mut self, db_name: &str, rel_name: &str, values: &Vec<i32>) -> (r: Result<(), Error>)
        requires
            old(self).wf(),
        ensures
            final(self).wf(),
            r is Err ==> final(self).pool().contents() == old(self).pool().contents(),
            scannable(old(self).pool(), PG_CLASS_OID) && !class_found(old(self).pool(), rel_name@)
                && class_rows_decode(class_rows(old(self).pool())) ==> r == Err::<(), Error>(Error::RelationNotFound),
            scannable(old(self).pool(), PG_CLASS_OID) && class_found(old(self).pool(), rel_name@)
                && old(self).pool().contents().contains_key(class_oid(old(self).pool(), rel_name@))
                && old(self).pool().contents()[class_oid(old(self).pool(), rel_name@)].len() < u32::MAX - 1
                && 0 < values@.len() && 4 * values@.len() <= MAX_TUPLE_SIZE ==> r is Ok,
            r is Ok ==> exists|oid: u32| {
                let pages = old(self).pool().contents()[oid];
                &&& #[trigger] old(self).pool().contents().contains_key(oid)
                &&& final(self).pool().contents() == old(self).pool().contents().insert(oid, final(self).pool().contents()[oid])
                &&& inserted_at(pages, final(self).pool().contents()[oid], i32_row(values@),
                    first_fit(pages, i32_row(values@).len() as int))
                &&& exists|i: int| 0 <= i < class_rows(old(self).pool()).len()
                    && decode_class(#[trigger] class_rows(old(self).pool())[i]) == Some((oid, rel_name@))
            },
    {
        let ghost p0 = self.buffer_pool;
        let oid = match self.catalog.get_oid_relation(&mut self.buffer_pool, db_name, rel_name) {
            Ok(o) => o,
            Err(e) => {
                proof { self.lemma_pins(p0); }
                return Err(e);
            },
        };
        let mut data: Vec<u8> = Vec::new();
        let mut i: usize = 0;
        while i < values.len()
            invariant
                i <= values@.len(),
                data@ == i32_row(values@.subrange(0, i as int)),
            decreases values@.len() - i,
        {
            let bytes = serialize_i32(values[i]);
            let ghost prev = data@;
            let mut j: usize = 0;
            while j < bytes.len()
                invariant
                    j <= bytes@.len(),
                    data@ == prev + bytes@.subrange(0, j as int),
                decreases bytes@.len() - j,
            {
                data.push(bytes[j]);
                j = j + 1;
                assert(data@ =~= prev + bytes@.subrange(0, j as int));
            }
            proof {
                assert(bytes@.subrange(0, j as int) =~= bytes@);
                assert(values@.subrange(0, i + 1).drop_last() =~= values@.subrange(0, i as int));
            }
            i = i + 1;
        }
        let rel = Relation::open(oid, self.db_data.as_str(), db_name, rel_name);
        let ghost p1 = self.buffer_pool;
        proof { self.lemma_pins(p0); }
        proof {
            assert(values@.subrange(0, values@.len() as int) =~= values@);
            lemma_i32_row_len(values@);
            if p0.has_free_frame() {
                let f = choose|f: int| 0 <= f < p0.num_frames() && p0.frame_pin(f) == 0;
                assert(self.buffer_pool.frame_pin(f) == 0);
            }
        }
        let ghost dv = data@;
        assert(dv == i32_row(values@));
        assert(p1.contents() == p0.contents());
        assert(old(self).pool() == p0);
        let r = heap_insert(&mut self.buffer_pool, &rel, &HeapTuple { data });
        proof {
            self.lemma_pins(p1);
            if r is Ok {
                assert(p0.contents().contains_key(oid));
                assert(self.pool().contents() == p0.contents().insert(oid, self.pool().contents()[oid]));
                let pages = p0.contents()[oid];
                assert(inserted_at(pages, self.pool().contents()[oid], i32_row(values@),
                    first_fit(pages, i32_row(values@).len() as int)));
            }
        }
        r
    }

    /// The columns and the tuples of table `rel_name`.
    pub fn scan_table(&mut self, db_name: &str, rel_name: &str) -> (r: Result<(TupleDesc, Vec<HeapTuple>), Error>)
        requires
            old(self).wf(),
        ensures
            final(self).wf(),
            final(self).pool().contents() == old(self).pool().contents(),
            scannable(old(self).pool(), PG_CLASS_OID) && !class_found(old(self).pool(), rel_name@)
                && class_rows_decode(class_rows(old(self).pool()))
                ==> (r matches Err(e) && e == Error::RelationNotFound),
            r matches Ok((desc, _)) ==> attrs_of(old(self).pool(), rel_name@, desc.attrs@),
            scannable(old(self).pool(), PG_CLASS_OID) && class_found(old(self).pool(), rel_name@)
                && scannable(old(self).pool(), PG_ATTRIBUTE_OID) && attr_rows_decode(attr_rows(old(self).pool()))
                && scannable(old(self).pool(), class_oid(old(self).pool(), rel_name@)) ==> r is Ok,
            r matches Ok((_, ts)) ==> exists|oid: u32| {
                &&& #[trigger] old(self).pool().contents().contains_key(oid)
                &&& tuples_view(ts@) == rel_tuples(old(self).pool().contents()[oid])
                &&& exists|i: int| 0 <= i < class_rows(old(self).pool()).len()
                    && decode_class(#[trigger] class_rows(old(self).pool())[i]) == Some((oid, rel_name@))
            },
    {
        let ghost p0 = self.buffer_pool;
        let oid = match self.catalog.get_oid_relation(&mut self.buffer_pool, db_name, rel_name) {
            Ok(o) => o,
            Err(e) => {
                proof { self.lemma_pins(p0); }
                return Err(e);
            },
        };
        proof {
            self.lemma_pins(p0);
            assert(class_rows(self.buffer_pool) == class_rows(p0));
            assert(attr_rows(self.buffer_pool) == attr_rows(p0));
            if p0.has_free_frame() {
                let f = choose|f: int| 0 <= f < p0.num_frames() && p0.frame_pin(f) == 0;
                assert(self.buffer_pool.frame_pin(f) == 0);
            }
        }
        let ghost p1 = self.buffer_pool;
        let attrs = match self.catalog.get_attributes_from_relation(&mut self.buffer_pool, db_name, rel_name) {
            Ok(a) => a,
            Err(e) => {
                proof { self.lemma_pins(p0); }
                return Err(e);
            },
        };
        proof { self.lemma_pins(p0); }
        let rel = Relation::open(oid, self.db_data.as_str(), db_name, rel_name);
        proof {
            if p0.has_free_frame() {
                let f = choose|f: int| 0 <= f < p0.num_frames() && p0.frame_pin(f) == 0;
                assert(self.buffer_pool.frame_pin(f) == 0);
            }
        }
        let r = heap_scan(&mut self.buffer_pool, &rel);
        proof { self.lemma_pins(p0); }
        proof {
            assert(class_rows(p1) == class_rows(p0));
            assert(attr_rows(p1) == attr_rows(p0));
            assert(attrs_of(p1, rel_name@, attrs@) ==> attrs_of(p0, rel_name@, attrs@));
        }
        match r {
            Ok(ts) => Ok((TupleDesc { attrs }, ts)),
            Err(e) => Err(e),
        }
    }

    /// Writes every dirty page back to its relation's pager.
    pub fn flush(&mut self) -> (r: Result<(), Error>)
        requires
            old(self).wf(),
        ensures
            r is Ok,
            final(self).wf(),
            final(self).pool().contents() == old(self).pool().contents(),
            final(self).pool().disk() == final(self).pool().contents(),
    {
        let ghost p0 = self.buffer_pool;
        let r = self.buffer_pool.flush_all_buffers();
        proof { self.lemma_pins(p0); }
        r
    }

    /// Registers the pager of an existing relation file.
    pub fn attach(&mut self, oid: u32, pager: crate::pager::Pager) -> (r: Result<(), Error>)
        requires
            old(self).wf(),
            pager.wf(),
        ensures
            final(self).wf(),
            r is Ok <==> !old(self).pool().contents().contains_key(oid),
            r is Err ==> r == Err::<(), Error>(Error::AlreadyExists) && final(self).pool() == old(self).pool(),
            r is Ok ==> final(self).pool().contents() == old(self).pool().contents().insert(oid, pager.pages()),
    {
        let ghost p0 = self.buffer_pool;
        let r = self.buffer_pool.register_pager(oid, pager);
        proof { self.lemma_pins(p0); }
        r
    }
}

} // verus!