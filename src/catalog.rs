use vstd::prelude::*;
use crate::buffer::BufferPool;
use crate::codec::{
    from_le32, from_le64, get_str, get_u32, get_u64, lemma_le32, lemma_le64, lemma_str_field, le32, le64,
    put_str, put_u32, put_u64, str_field, str_field_at,
};
use crate::bufpage::{empty_page, free_space, page_items, page_wf};
use crate::heap::{all_pages_wf, first_fit, heap_insert, inserted_at, MAX_TUPLE_SIZE, heap_scan, rel_tuples, tuples_view, HeapTuple};
use crate::pager::{Error, Pager};
use crate::rel::Relation;

verus! {

/// Oid of the catalog relation that lists every relation.
pub const PG_CLASS_OID: u32 = 1259;

/// Oid of the catalog relation that lists every column.
pub const PG_ATTRIBUTE_OID: u32 = 1249;

/// First oid given to a user relation.
pub const FIRST_NORMAL_OID: u32 = 16384;

/// A row of `pg_class`.
pub struct PgClass {
    pub oid: u32,
    pub relname: String,
}

/// A row of `pg_attribute`: one column of one relation.
pub struct PgAttribute {
    pub attrelid: u32,
    pub attname: String,
    pub attnum: usize,
    pub attlen: usize,
}

/// The stored form of a `pg_class` row.
pub open spec fn class_bytes(oid: u32, name: Seq<char>) -> Seq<u8> {
    le32(oid) + str_field(name)
}

/// The stored form of a `pg_attribute` row.
pub open spec fn attr_bytes(rel: u32, name: Seq<char>, num: u64, len: u64) -> Seq<u8> {
    le32(rel) + str_field(name) + le64(num) + le64(len)
}

/// The `pg_class` row stored in `b`, if `b` holds one.
pub open spec fn decode_class(b: Seq<u8>) -> Option<(u32, Seq<char>)> {
    if b.len() >= 4 {
        match str_field_at(b, 4) {
            Some((name, _end)) => Some((from_le32(b.subrange(0, 4)), name)),
            None => None,
        }
    } else {
        None
    }
}

/// The `pg_attribute` row stored in `b`, if `b` holds one.
pub open spec fn decode_attr(b: Seq<u8>) -> Option<(u32, Seq<char>, u64, u64)> {
    if b.len() >= 4 {
        match str_field_at(b, 4) {
            Some((name, end)) => if end + 16 <= b.len() {
                Some((from_le32(b.subrange(0, 4)), name, from_le64(b.subrange(end, end + 8)),
                    from_le64(b.subrange(end + 8, end + 16))))
            } else {
                None
            },
            None => None,
        }
    } else {
        None
    }
}

/// Decoding a stored `pg_class` row gives back the row.
pub proof fn law_class_round_trip(oid: u32, name: Seq<char>)
    requires
        vstd::utf8::encode_utf8(name).len() <= u64::MAX,
    ensures
        decode_class(class_bytes(oid, name)) == Some((oid, name)),
{
    let b = class_bytes(oid, name);
    lemma_str_field(le32(oid), name, Seq::empty());
    assert(le32(oid) + str_field(name) + Seq::<u8>::empty() =~= b);
    assert(b.subrange(0, 4) =~= le32(oid));
    lemma_le32(oid);
}

/// Decoding a stored `pg_attribute` row gives back the row.
pub proof fn law_attr_round_trip(rel: u32, name: Seq<char>, num: u64, len: u64)
    requires
        vstd::utf8::encode_utf8(name).len() <= u64::MAX,
    ensures
        decode_attr(attr_bytes(rel, name, num, len)) == Some((rel, name, num, len)),
{
    let b = attr_bytes(rel, name, num, len);
    let tail = le64(num) + le64(len);
    lemma_str_field(le32(rel), name, tail);
    assert(le32(rel) + str_field(name) + tail =~= b);
    assert(b.subrange(0, 4) =~= le32(rel));
    lemma_le32(rel);
    let end: int = (4 + 8 + vstd::utf8::encode_utf8(name).len()) as int;
    assert(b.subrange(end, end + 8) =~= le64(num));
    assert(b.subrange(end + 8, end + 16) =~= le64(len));
    lemma_le64(num);
    lemma_le64(len);
}

impl PgClass {
    pub fn serialize(&self) -> (r: Vec<u8>)
        ensures
            r@ == class_bytes(self.oid, self.relname@),
    {
        let mut out: Vec<u8> = Vec::new();
        put_u32(&mut out, self.oid);
        put_str(&mut out, self.relname.as_str());
        assert(out@ =~= class_bytes(self.oid, self.relname@));
        out
    }

    pub fn deserialize(b: &[u8]) -> (r: Result<PgClass, Error>)
        ensures
            r is Ok <==> decode_class(b@) is Some,
            r matches Ok(c) ==> decode_class(b@) == Some((c.oid, c.relname@)),
            r matches Err(e) ==> e is Deserialize,
    {
        if b.len() < 4 {
            return Err(Error::Deserialize(String::from_str("pg_class row too short")));
        }
        let oid = get_u32(b, 0);
        match get_str(b, 4) {
            Some((relname, _)) => Ok(PgClass { oid, relname }),
            None => Err(Error::Deserialize(String::from_str("pg_class row has no valid name"))),
        }
    }
}

impl PgAttribute {
    pub fn serialize(&self) -> (r: Vec<u8>)
        ensures
            r@ == attr_bytes(self.attrelid, self.attname@, self.attnum as u64, self.attlen as u64),
    {
        let mut out: Vec<u8> = Vec::new();
        put_u32(&mut out, self.attrelid);
        put_str(&mut out, self.attname.as_str());
        put_u64(&mut out, self.attnum as u64);
        put_u64(&mut out, self.attlen as u64);
        assert(out@ =~= attr_bytes(self.attrelid, self.attname@, self.attnum as u64, self.attlen as u64));
        out
    }

    pub fn deserialize(b: &[u8]) -> (r: Result<PgAttribute, Error>)
        ensures
            r is Ok <==> (decode_attr(b@) matches Some((_, _, num, len)) && num <= usize::MAX && len <= usize::MAX),
            r matches Ok(a) ==> decode_attr(b@) == Some((a.attrelid, a.attname@, a.attnum as u64, a.attlen as u64)),
            r matches Err(e) ==> e is Deserialize,
    {
        if b.len() < 4 {
            return Err(Error::Deserialize(String::from_str("pg_attribute row too short")));
        }
        let attrelid = get_u32(b, 0);
        match get_str(b, 4) {
            Some((attname, end)) => {
                if end > b.len() || b.len() - end < 16 {
                    return Err(Error::Deserialize(String::from_str("pg_attribute row too short")));
                }
                let num = get_u64(b, end);
                let len = get_u64(b, end + 8);
                if num > usize::MAX as u64 || len > usize::MAX as u64 {
                    return Err(Error::Deserialize(String::from_str("pg_attribute number out of range")));
                }
                Ok(PgAttribute { attrelid, attname, attnum: num as usize, attlen: len as usize })
            },
            None => Err(Error::Deserialize(String::from_str("pg_attribute row has no valid name"))),
        }
    }
}

/// Whether `b` holds a `pg_class` row named `name`.
pub open spec fn class_named(b: Seq<u8>, name: Seq<char>) -> bool {
    match decode_class(b) {
        Some((_, n)) => n == name,
        None => false,
    }
}

/// The rows of `pg_class` as readers of `pool` see them.
pub open spec fn class_rows(pool: BufferPool) -> Seq<Seq<u8>> {
    rel_tuples(pool.contents()[PG_CLASS_OID])
}

/// The rows of `pg_attribute` as readers of `pool` see them.
pub open spec fn attr_rows(pool: BufferPool) -> Seq<Seq<u8>> {
    rel_tuples(pool.contents()[PG_ATTRIBUTE_OID])
}

/// Whether a scan of relation `oid` is owed to succeed.
pub open spec fn scannable(pool: BufferPool, oid: u32) -> bool {
    pool.contents().contains_key(oid) && all_pages_wf(pool.contents()[oid]) && pool.has_free_frame()
}

/// Whether `pg_class` holds a row named `name` with only well-formed rows before it.
pub open spec fn class_found(pool: BufferPool, name: Seq<char>) -> bool {
    exists|i: int| 0 <= i < class_rows(pool).len()
        && class_named(#[trigger] class_rows(pool)[i], name)
        && forall|k: int| 0 <= k < i ==> decode_class(#[trigger] class_rows(pool)[k]) is Some
}

/// Whether row `i` is the first `pg_class` row named `name`, with only well-formed rows before it.
pub open spec fn first_named(pool: BufferPool, name: Seq<char>, i: int) -> bool {
    &&& 0 <= i < class_rows(pool).len()
    &&& class_named(class_rows(pool)[i], name)
    &&& forall|k: int| 0 <= k < i ==> decode_class(#[trigger] class_rows(pool)[k]) is Some
        && !class_named(class_rows(pool)[k], name)
}

/// The oid that the catalog gives to `name`: that of its first `pg_class` row.
pub open spec fn class_oid(pool: BufferPool, name: Seq<char>) -> u32 {
    decode_class(class_rows(pool)[choose|i: int| first_named(pool, name, i)])->Some_0.0
}

/// When the name is found, the first row naming it carries `class_oid`.
pub proof fn lemma_class_oid(pool: BufferPool, name: Seq<char>, i: int, oid: u32)
    requires
        0 <= i < class_rows(pool).len(),
        decode_class(class_rows(pool)[i]) == Some((oid, name)),
        forall|k: int| 0 <= k < i ==> !class_named(#[trigger] class_rows(pool)[k], name),
        forall|k: int| 0 <= k < i ==> decode_class(#[trigger] class_rows(pool)[k]) is Some,
    ensures
        class_oid(pool, name) == oid,
{
    assert(first_named(pool, name, i));
    let c = choose|c: int| first_named(pool, name, c);
    if c < i {
        assert(!class_named(class_rows(pool)[c], name));
    } else if c > i {
        assert(class_named(class_rows(pool)[i], name));
    }
}

/// Whether every `pg_class` row decodes.
pub open spec fn class_rows_decode(rows: Seq<Seq<u8>>) -> bool {
    forall|j: int| 0 <= j < rows.len() ==> decode_class(#[trigger] rows[j]) is Some
}

/// Whether every `pg_attribute` row decodes, with numbers that fit a `usize`.
pub open spec fn attr_rows_decode(rows: Seq<Seq<u8>>) -> bool {
    forall|j: int| 0 <= j < rows.len() ==> match decode_attr(#[trigger] rows[j]) {
        Some((_, _, num, len)) => num <= usize::MAX && len <= usize::MAX,
        None => false,
    }
}

/// Whether no `pg_attribute` row of relation `oid` has number `n`.
pub open spec fn attrs_complete(rows: Seq<Seq<u8>>, oid: u32, n: int) -> bool {
    forall|j: int| 0 <= j < rows.len() ==> match decode_attr(#[trigger] rows[j]) {
        Some((r, _, num, _)) => r == oid ==> num != n,
        None => true,
    }
}

/// Whether `v` is the column list of relation `name`: `oid` is the first `pg_class` row so
/// named, each `v[i]` is a `pg_attribute` row of `oid` numbered `i`, and no row of `oid` is
/// numbered `v.len()`.
pub open spec fn attrs_of(pool: BufferPool, name: Seq<char>, v: Seq<PgAttribute>) -> bool {
    exists|oid: u32| {
        &&& #[trigger] attrs_complete(attr_rows(pool), oid, v.len() as int)
        &&& exists|c: int| 0 <= c < class_rows(pool).len()
            && decode_class(#[trigger] class_rows(pool)[c]) == Some((oid, name))
            && forall|k: int| 0 <= k < c ==> !class_named(#[trigger] class_rows(pool)[k], name)
        &&& forall|i: int| 0 <= i < v.len() ==> {
            &&& (#[trigger] v[i]).attnum == i
            &&& v[i].attrelid == oid
            &&& exists|j: int| 0 <= j < attr_rows(pool).len()
                && decode_attr(#[trigger] attr_rows(pool)[j]) == Some((oid, v[i].attname@, i as u64, v[i].attlen as u64))
        }
    }
}

/// Looks up relations and their columns in the catalog of a database.
pub struct Catalog {
    pub db_data: String,
}

/// Whether two column rows agree in every field.
pub open spec fn same_column(a: PgAttribute, b: PgAttribute) -> bool {
    a.attrelid == b.attrelid && a.attname@ == b.attname@ && a.attnum == b.attnum && a.attlen == b.attlen
}

/// Picks from `mine` the columns numbered 0, 1, 2, ..., stopping at the first missing number.
fn select_columns(mine: &Vec<PgAttribute>) -> (res: (Vec<PgAttribute>, Ghost<Seq<int>>))
    ensures
        res.0@.len() <= mine@.len(),
        res.1@.len() == res.0@.len(),
        forall|m: int| 0 <= m < mine@.len() ==> (#[trigger] mine@[m]).attnum != res.0@.len(),
        forall|q: int| 0 <= q < res.0@.len() ==> 0 <= #[trigger] res.1@[q] < mine@.len()
            && res.0@[q].attnum == q && same_column(mine@[res.1@[q]], res.0@[q]),
{
    let mut out: Vec<PgAttribute> = Vec::new();
    let mut k: usize = 0;
    let ghost mut used: Set<int> = Set::empty();
    let ghost mut src: Seq<int> = Seq::empty();
    loop
        invariant
            k <= mine@.len(),
            out@.len() == k,
            src.len() == k,
            used.finite(),
            used.len() == k,
            forall|x: int| used.contains(x) ==> 0 <= x < mine@.len() && (mine@[x].attnum as int) < k,
            forall|q: int| 0 <= q < k ==> 0 <= #[trigger] src[q] < mine@.len()
                && out@[q].attnum == q && same_column(mine@[src[q]], out@[q]),
        ensures
            out@.len() <= mine@.len(),
            src.len() == out@.len(),
            forall|m: int| 0 <= m < mine@.len() ==> (#[trigger] mine@[m]).attnum != out@.len(),
            forall|q: int| 0 <= q < out@.len() ==> 0 <= #[trigger] src[q] < mine@.len()
                && out@[q].attnum == q && same_column(mine@[src[q]], out@[q]),
        decreases mine@.len() - k,
    {
        let mut found: Option<usize> = None;
        let mut m: usize = 0;
        while m < mine.len()
            invariant
                m <= mine@.len(),
                found matches Some(f) ==> f < mine@.len() && mine@[f as int].attnum == k,
                found is None ==> forall|q: int| 0 <= q < m ==> (#[trigger] mine@[q]).attnum != k,
            decreases mine@.len() - m,
        {
            if found.is_none() && mine[m].attnum == k {
                found = Some(m);
            }
            m = m + 1;
        }
        match found {
            Some(f) => {
                let a = &mine[f];
                let item = PgAttribute {
                    attrelid: a.attrelid,
                    attname: a.attname.clone(),
                    attnum: a.attnum,
                    attlen: a.attlen,
                };
                let ghost before = out@;
                let ghost src0 = src;
                out.push(item);
                proof {
                    assert(!used.contains(f as int));
                    let nu = used.insert(f as int);
                    assert(nu.subset_of(vstd::set_lib::set_int_range(0, mine@.len() as int)));
                    vstd::set_lib::lemma_int_range(0, mine@.len() as int);
                    vstd::set_lib::lemma_len_subset(nu, vstd::set_lib::set_int_range(0, mine@.len() as int));
                    used = nu;
                    src = src.push(f as int);
                    assert forall|q: int| 0 <= q < k + 1 implies 0 <= #[trigger] src[q] < mine@.len()
                        && out@[q].attnum == q && same_column(mine@[src[q]], out@[q]) by {
                        if q < k {
                            assert(out@[q] == before[q]);
                            assert(src[q] == src0[q]);
                        }
                    }
                }
                k = k + 1;
            },
            None => {
                break;
            },
        }
    }
    (out, Ghost(src))
}

impl Catalog {
    pub fn new(db_data: &str) -> (r: Catalog)
        ensures
            r.db_data@ == db_data@,
    {
        Catalog { db_data: String::from_str(db_data) }
    }

    /// The oid of the first `pg_class` row named `rel_name`.
    pub fn get_oid_relation(&self, pool: &mut BufferPool, db_name: &str, rel_name: &str) -> (r: Result<u32, Error>)
        requires
            old(pool).wf(),
            old(pool).pins_below_max(),
        ensures
            final(pool).wf(),
            final(pool).contents() == old(pool).contents(),
            final(pool).num_frames() == old(pool).num_frames(),
            forall|g: int| 0 <= g < old(pool).num_frames() ==> #[trigger] final(pool).frame_pin(g) == old(pool).frame_pin(g),
            scannable(*old(pool), PG_CLASS_OID) ==> (r is Ok <==> class_found(*old(pool), rel_name@)),
            scannable(*old(pool), PG_CLASS_OID) && (forall|k: int| 0 <= k < class_rows(*old(pool)).len()
                ==> decode_class(#[trigger] class_rows(*old(pool))[k]) is Some
                && !class_named(class_rows(*old(pool))[k], rel_name@))
                ==> r == Err::<u32, Error>(Error::RelationNotFound),
            r matches Ok(oid) ==> exists|i: int| 0 <= i < class_rows(*old(pool)).len()
                && decode_class(#[trigger] class_rows(*old(pool))[i]) == Some((oid, rel_name@))
                && forall|k: int| 0 <= k < i ==> !class_named(#[trigger] class_rows(*old(pool))[k], rel_name@)
                    && decode_class(class_rows(*old(pool))[k]) is Some,
            r matches Ok(oid) ==> oid == class_oid(*old(pool), rel_name@),
    {
        let rel = Relation::open(PG_CLASS_OID, self.db_data.as_str(), db_name, "pg_class");
        let rows = heap_scan(pool, &rel)?;
        let ghost tv = tuples_view(rows@);
        let target = String::from_str(rel_name);
        let mut i: usize = 0;
        while i < rows.len()
            invariant
                pool.wf(),
                pool.contents() == old(pool).contents(),
                pool.num_frames() == old(pool).num_frames(),
                forall|g: int| 0 <= g < old(pool).num_frames() ==> #[trigger] pool.frame_pin(g) == old(pool).frame_pin(g),
                tv == class_rows(*old(pool)),
                i <= rows@.len(),
                tv == tuples_view(rows@),
                target@ == rel_name@,
                forall|k: int| 0 <= k < i ==> decode_class(#[trigger] tv[k]) is Some && !class_named(tv[k], rel_name@),
            decreases rows@.len() - i,
        {
            assert(tv[i as int] == rows@[i as int].data@);
            let c = match PgClass::deserialize(rows[i].data.as_slice()) {
                Ok(c) => c,
                Err(e) => {
                    proof {
                        assert forall|j: int| 0 <= j < tv.len() && #[trigger] class_named(tv[j], rel_name@)
                            implies !(forall|k: int| 0 <= k < j ==> decode_class(#[trigger] tv[k]) is Some) by {
                            assert(j > i);
                            assert(decode_class(tv[i as int]) is None);
                        }
                    }
                    return Err(e);
                },
            };
            if c.relname == target {
                proof {
                    lemma_class_oid(*old(pool), rel_name@, i as int, c.oid);
                }
                return Ok(c.oid);
            }
            i = i + 1;
        }
        Err(Error::RelationNotFound)
    }

    /// The columns of `rel_name`: its `pg_attribute` rows, taken by `attnum` from 0 upwards
    /// for as long as the next number is present.
    #[verifier::rlimit(100)]
    pub fn get_attributes_from_relation(&self, pool: &mut BufferPool, db_name: &str, rel_name: &str)
        -> (r: Result<Vec<PgAttribute>, Error>)
        requires
            old(pool).wf(),
            old(pool).pins_below_max(),
        ensures
            final(pool).wf(),
            final(pool).contents() == old(pool).contents(),
            final(pool).num_frames() == old(pool).num_frames(),
            forall|g: int| 0 <= g < old(pool).num_frames() ==> #[trigger] final(pool).frame_pin(g) == old(pool).frame_pin(g),
            scannable(*old(pool), PG_CLASS_OID) && class_found(*old(pool), rel_name@)
                && scannable(*old(pool), PG_ATTRIBUTE_OID) && attr_rows_decode(attr_rows(*old(pool))) ==> r is Ok,
            scannable(*old(pool), PG_CLASS_OID) && !class_found(*old(pool), rel_name@)
                && class_rows_decode(class_rows(*old(pool))) ==> r == Err::<Vec<PgAttribute>, Error>(Error::RelationNotFound),
            r matches Ok(v) ==> attrs_of(*old(pool), rel_name@, v@),
    {
        let oid = self.get_oid_relation(pool, db_name, rel_name)?;
        let rel = Relation::open(PG_ATTRIBUTE_OID, self.db_data.as_str(), db_name, "pg_attribute");
        proof {
            assert(scannable(*old(pool), PG_CLASS_OID) ==> class_found(*old(pool), rel_name@));
            assert forall|f: int| 0 <= f < pool.num_frames() implies #[trigger] pool.frame_pin(f) < u32::MAX by {
                assert(old(pool).frame_pin(f) < u32::MAX);
            }
            if old(pool).has_free_frame() {
                let f = choose|f: int| 0 <= f < old(pool).num_frames() && old(pool).frame_pin(f) == 0;
                assert(pool.frame_pin(f) == 0);
            }
        }
        let ghost found = scannable(*old(pool), PG_CLASS_OID) ==> class_found(*old(pool), rel_name@);
        let rows = heap_scan(pool, &rel)?;
        let ghost tv = tuples_view(rows@);
        let mut mine: Vec<PgAttribute> = Vec::new();
        let mut i: usize = 0;
        while i < rows.len()
            invariant
                pool.wf(),
                pool.contents() == old(pool).contents(),
                pool.num_frames() == old(pool).num_frames(),
                forall|g: int| 0 <= g < old(pool).num_frames() ==> #[trigger] pool.frame_pin(g) == old(pool).frame_pin(g),
                tv == attr_rows(*old(pool)),
                found == (scannable(*old(pool), PG_CLASS_OID) ==> class_found(*old(pool), rel_name@)),
                found,
                i <= rows@.len(),
                tv == tuples_view(rows@),
                forall|m: int| 0 <= m < mine@.len() ==> (#[trigger] mine@[m]).attrelid == oid
                    && exists|j: int| 0 <= j < tv.len() && decode_attr(#[trigger] tv[j])
                    == Some((mine@[m].attrelid, mine@[m].attname@, mine@[m].attnum as u64, mine@[m].attlen as u64)),
                forall|j: int| 0 <= j < i ==> match decode_attr(#[trigger] tv[j]) {
                    Some((rr, _, num, _)) => rr == oid ==> exists|m: int| 0 <= m < mine@.len()
                        && (#[trigger] mine@[m]).attnum as u64 == num,
                    None => false,
                },
            decreases rows@.len() - i,
        {
            assert(tv[i as int] == rows@[i as int].data@);
            let a = PgAttribute::deserialize(rows[i].data.as_slice())?;
            let ghost before = mine@;
            if a.attrelid == oid {
                mine.push(a);
                proof {
                    assert(mine@[before.len() as int].attnum as u64 == decode_attr(tv[i as int])->Some_0.2);
                    assert forall|j: int| 0 <= j < i + 1 implies match decode_attr(#[trigger] tv[j]) {
                        Some((rr, _, num, _)) => rr == oid ==> exists|m: int| 0 <= m < mine@.len()
                            && (#[trigger] mine@[m]).attnum as u64 == num,
                        None => false,
                    } by {
                        if j < i {
                            match decode_attr(tv[j]) {
                                Some((rr, _, num, _)) => {
                                    if rr == oid {
                                        let m = choose|m: int| 0 <= m < before.len() && (#[trigger] before[m]).attnum as u64 == num;
                                        assert(mine@[m] == before[m]);
                                    }
                                },
                                None => {},
                            }
                        }
                    }
                    assert forall|m: int| 0 <= m < mine@.len() implies (#[trigger] mine@[m]).attrelid == oid
                        && exists|j: int| 0 <= j < tv.len() && decode_attr(#[trigger] tv[j])
                        == Some((mine@[m].attrelid, mine@[m].attname@, mine@[m].attnum as u64, mine@[m].attlen as u64)) by {
                        if m < before.len() {
                            assert(mine@[m] == before[m]);
                        } else {
                            assert(decode_attr(tv[i as int]) == Some((mine@[m].attrelid, mine@[m].attname@,
                                mine@[m].attnum as u64, mine@[m].attlen as u64)));
                        }
                    }
                }
            }
            i = i + 1;
        }
        let (out, Ghost(src)) = select_columns(&mine);
        proof {
            assert forall|q: int| 0 <= q < out@.len() implies (#[trigger] out@[q]).attnum == q && out@[q].attrelid == oid
                && exists|j: int| 0 <= j < tv.len() && decode_attr(#[trigger] tv[j])
                == Some((out@[q].attrelid, out@[q].attname@, q as u64, out@[q].attlen as u64)) by {
                let m = src[q];
                assert(0 <= m < mine@.len());
                assert(same_column(mine@[m], out@[q]));
                assert(mine@[m].attrelid == oid);
            }
        }
        proof {
            assert(attrs_complete(tv, oid, out@.len() as int)) by {
                assert forall|j: int| 0 <= j < tv.len() implies match decode_attr(#[trigger] tv[j]) {
                    Some((rr, _, num, _)) => rr == oid ==> num != out@.len(),
                    None => true,
                } by {
                    match decode_attr(tv[j]) {
                        Some((rr, _, num, _)) => {
                            if rr == oid {
                                let m = choose|m: int| 0 <= m < mine@.len() && (#[trigger] mine@[m]).attnum as u64 == num;
                                assert(mine@[m].attnum != out@.len());
                            }
                        },
                        None => {},
                    }
                }
            }
        }
        proof {
            assert(attrs_complete(attr_rows(*old(pool)), oid, out@.len() as int));
            assert(attrs_of(*old(pool), rel_name@, out@));
        }
        Ok(out)
    }
}

/// Creates relation `rel_name` stored in a new, empty pager with one empty page, and returns it.
fn create_storage(pool: &mut BufferPool, oid: u32, db_data: &str, db_name: &str, rel_name: &str)
    -> (r: Result<Relation, Error>)
    requires
        old(pool).wf(),
        old(pool).pins_below_max(),
    ensures
        final(pool).wf(),
        final(pool).pins_below_max(),
        final(pool).num_frames() == old(pool).num_frames(),
        forall|g: int| 0 <= g < old(pool).num_frames() ==> #[trigger] final(pool).frame_pin(g) == old(pool).frame_pin(g),
        r is Ok ==> !old(pool).contents().contains_key(oid)
            && final(pool).contents() == old(pool).contents().insert(oid, seq![empty_page()]),
        r matches Ok(rel) ==> rel.oid == oid,
        old(pool).contents().contains_key(oid) ==> r == Err::<Relation, Error>(Error::AlreadyExists),
        !old(pool).contents().contains_key(oid) && old(pool).has_free_frame() ==> r is Ok,
        r is Ok ==> old(pool).has_free_frame(),
        r == Err::<Relation, Error>(Error::AlreadyExists) ==> final(pool).contents() == old(pool).contents(),
{
    let rel = Relation::open(oid, db_data, db_name, rel_name);
    let empty: Vec<u8> = Vec::new();
    let pager = match Pager::open(empty.as_slice()) {
        Ok(p) => p,
        Err(e) => {
            return Err(e);
        },
    };
    let ghost a = *pool;
    pool.register_pager(oid, pager)?;
    proof {
        assert(pager.pages() =~= Seq::<Seq<u8>>::empty());
        if a.has_free_frame() {
            let f = choose|f: int| 0 <= f < a.num_frames() && a.frame_pin(f) == 0;
            assert(pool.frame_pin(f) == 0);
        }
    }
    let ghost b = *pool;
    let h = match pool.alloc_buffer(&rel) {
        Ok(h) => {
            proof {
                let f = choose|f: int| 0 <= f < b.num_frames() && b.frame_pin(f) == 0;
                assert(a.frame_pin(f) == 0);
            }
            h
        },
        Err(e) => {
            proof {
                assert forall|f: int| 0 <= f < pool.num_frames() implies #[trigger] pool.frame_pin(f) < u32::MAX by {
                    assert(a.frame_pin(f) < u32::MAX);
                }
            }
            return Err(e);
        },
    };
    let _ = pool.unpin_buffer(h, true);
    proof {
        assert(pool.contents() =~= a.contents().insert(oid, seq![empty_page()]));
        assert forall|f: int| 0 <= f < pool.num_frames() implies #[trigger] pool.frame_pin(f) < u32::MAX by {
            assert(a.frame_pin(f) < u32::MAX);
        }
    }
    Ok(rel)
}

/// Adds `payload` to relation `rel`, checking first that it has a size a page can hold.
fn insert_row(pool: &mut BufferPool, rel: &Relation, payload: Vec<u8>) -> (r: Result<(), Error>)
    requires
        old(pool).wf(),
        old(pool).pins_below_max(),
    ensures
        final(pool).wf(),
        final(pool).pins_below_max(),
        final(pool).num_frames() == old(pool).num_frames(),
        forall|g: int| 0 <= g < old(pool).num_frames() ==> #[trigger] final(pool).frame_pin(g) == old(pool).frame_pin(g),
        forall|o: u32| o != rel.oid && #[trigger] old(pool).contents().contains_key(o)
            ==> final(pool).contents().contains_key(o) && final(pool).contents()[o] == old(pool).contents()[o],
        final(pool).contents().dom() == old(pool).contents().dom(),
        r matches Err(e) ==> e != Error::AlreadyExists,
        0 < payload@.len() <= MAX_TUPLE_SIZE && old(pool).contents().contains_key(rel.oid) && old(pool).has_free_frame()
            && old(pool).contents()[rel.oid].len() < u32::MAX - 1 ==> r is Ok,
        r is Ok ==> old(pool).contents().contains_key(rel.oid) && inserted_at(old(pool).contents()[rel.oid],
            final(pool).contents()[rel.oid], payload@, first_fit(old(pool).contents()[rel.oid], payload@.len() as int)),
{
    let ghost a = *pool;
    let ghost pv = payload@;
    let t = HeapTuple { data: payload };
    let r = heap_insert(pool, rel, &t);
    proof {
        assert forall|f: int| 0 <= f < pool.num_frames() implies #[trigger] pool.frame_pin(f) < u32::MAX by {
            assert(a.frame_pin(f) < u32::MAX);
        }
        if r is Ok {
            assert(pool.contents().dom() =~= a.contents().dom());
        }
    }
    r
}

/// The stored `pg_attribute` row of column `i` of relation `oid`.
pub open spec fn column_row(oid: u32, columns: Seq<(String, usize)>, i: int) -> Seq<u8> {
    attr_bytes(oid, columns[i].0@, i as u64, columns[i].1 as u64)
}

/// Whether some `pg_attribute` row in `rows` decodes as a row of relation `oid`.
pub open spec fn has_row_of(rows: Seq<Seq<u8>>, oid: u32) -> bool {
    exists|j: int| 0 <= j < rows.len() && (#[trigger] decode_attr(rows[j]) matches Some((r, _, _, _)) && r == oid)
}

/// Whether `heap_create` of `rel_name` with `columns` is owed to succeed: both catalogs can be
/// scanned and decode, the name is not taken, every oid in use can be exceeded, every relation
/// in the pool at or above `FIRST_NORMAL_OID` is listed in `pg_class`, and the rows and page
/// counts fit.
pub open spec fn can_create(pool: BufferPool, rel_name: Seq<char>, columns: Seq<(String, usize)>) -> bool {
    &&& scannable(pool, PG_CLASS_OID)
    &&& class_rows_decode(class_rows(pool))
    &&& !class_found(pool, rel_name)
    &&& scannable(pool, PG_ATTRIBUTE_OID)
    &&& attr_rows_decode(attr_rows(pool))
    &&& forall|k: int| 0 <= k < class_rows(pool).len() ==> match decode_class(#[trigger] class_rows(pool)[k]) {
        Some((o, _)) => o < u32::MAX,
        None => true,
    }
    &&& forall|k: int| 0 <= k < attr_rows(pool).len() ==> match decode_attr(#[trigger] attr_rows(pool)[k]) {
        Some((o, _, _, _)) => o < u32::MAX,
        None => true,
    }
    &&& forall|o: u32| #[trigger] pool.contents().contains_key(o) && o >= FIRST_NORMAL_OID ==>
        exists|k: int| 0 <= k < class_rows(pool).len() && (#[trigger] decode_class(class_rows(pool)[k]) matches Some((c, _)) && c == o)
    &&& pool.contents()[PG_CLASS_OID].len() < u32::MAX - 1
    &&& pool.contents()[PG_ATTRIBUTE_OID].len() + columns.len() < u32::MAX - 1
    &&& vstd::utf8::encode_utf8(rel_name).len() + 12 <= MAX_TUPLE_SIZE
    &&& forall|i: int| 0 <= i < columns.len()
        ==> vstd::utf8::encode_utf8((#[trigger] columns[i]).0@).len() + 28 <= MAX_TUPLE_SIZE
}

/// Adds one `pg_attribute` row per column of relation `oid`, numbered from 0 in order.
fn add_columns(pool: &mut BufferPool, attr_rel: &Relation, oid: u32, columns: &Vec<(String, usize)>)
    -> (r: Result<(), Error>)
    requires
        old(pool).wf(),
        old(pool).pins_below_max(),
        attr_rel.oid == PG_ATTRIBUTE_OID,
        old(pool).contents().contains_key(PG_ATTRIBUTE_OID),
        !has_row_of(attr_rows(*old(pool)), oid),
    ensures
        final(pool).wf(),
        final(pool).pins_below_max(),
        final(pool).num_frames() == old(pool).num_frames(),
        forall|g: int| 0 <= g < old(pool).num_frames() ==> #[trigger] final(pool).frame_pin(g) == old(pool).frame_pin(g),
        final(pool).contents().dom() == old(pool).contents().dom(),
        forall|o: u32| o != PG_ATTRIBUTE_OID && #[trigger] old(pool).contents().contains_key(o)
            ==> final(pool).contents()[o] == old(pool).contents()[o],
        r matches Err(e) ==> e != Error::AlreadyExists,
        old(pool).has_free_frame() && old(pool).contents()[PG_ATTRIBUTE_OID].len() + columns@.len() < u32::MAX - 1
            && (forall|i: int| 0 <= i < columns@.len()
                ==> vstd::utf8::encode_utf8((#[trigger] columns@[i]).0@).len() + 28 <= MAX_TUPLE_SIZE) ==> r is Ok,
        r is Ok ==> forall|x: Seq<u8>| #[trigger] attr_rows(*final(pool)).contains(x) <==>
            (attr_rows(*old(pool)).contains(x) || exists|i: int| 0 <= i < columns@.len() && x == #[trigger] column_row(oid, columns@, i)),
        r is Ok ==> attrs_complete(attr_rows(*final(pool)), oid, columns@.len() as int),
{
    let ghost a = *pool;
    let mut k: usize = 0;
    while k < columns.len()
        invariant
            a == *old(pool),
            pool.wf(),
            pool.pins_below_max(),
            pool.num_frames() == a.num_frames(),
            forall|g: int| 0 <= g < a.num_frames() ==> #[trigger] pool.frame_pin(g) == a.frame_pin(g),
            pool.contents().dom() == a.contents().dom(),
            forall|o: u32| o != PG_ATTRIBUTE_OID && #[trigger] a.contents().contains_key(o)
                ==> pool.contents()[o] == a.contents()[o],
            attr_rel.oid == PG_ATTRIBUTE_OID,
            a.contents().contains_key(PG_ATTRIBUTE_OID),
            pool.contents()[PG_ATTRIBUTE_OID].len() <= a.contents()[PG_ATTRIBUTE_OID].len() + k,
            k <= columns@.len(),
            !has_row_of(attr_rows(a), oid),
            forall|x: Seq<u8>| #[trigger] attr_rows(*pool).contains(x) <==>
                (attr_rows(a).contains(x) || exists|i: int| 0 <= i < k && x == #[trigger] column_row(oid, columns@, i)),
            a.has_free_frame() && a.contents()[PG_ATTRIBUTE_OID].len() + columns@.len() < u32::MAX - 1
                && (forall|i: int| 0 <= i < columns@.len()
                ==> vstd::utf8::encode_utf8((#[trigger] columns@[i]).0@).len() + 28 <= MAX_TUPLE_SIZE) ==> pool.has_free_frame(),
            forall|i: int| 0 <= i < k ==> vstd::utf8::encode_utf8((#[trigger] columns@[i]).0@).len() <= u64::MAX,
        decreases columns@.len() - k,
    {
        let (name, width) = &columns[k];
        let row = PgAttribute { attrelid: oid, attname: name.clone(), attnum: k, attlen: *width };
        let bytes = row.serialize();
        let blen = bytes.len();
        assert(bytes@ == column_row(oid, columns@, k as int));
        let ghost mid = *pool;
        proof {
            assert(mid.contents().contains_key(PG_ATTRIBUTE_OID));
        }
        insert_row(pool, attr_rel, bytes)?;
        proof {
            let row_k = column_row(oid, columns@, k as int);
            assert forall|x: Seq<u8>| #[trigger] attr_rows(*pool).contains(x) <==>
                (attr_rows(a).contains(x) || exists|i: int| 0 <= i < k + 1 && x == #[trigger] column_row(oid, columns@, i)) by {
                crate::heap::lemma_insert_member(mid.contents()[PG_ATTRIBUTE_OID], pool.contents()[PG_ATTRIBUTE_OID], row_k,
                    first_fit(mid.contents()[PG_ATTRIBUTE_OID], row_k.len() as int), x);
                assert(attr_rows(mid).contains(x) <==> (attr_rows(a).contains(x)
                    || exists|i: int| 0 <= i < k && x == #[trigger] column_row(oid, columns@, i)));
                if exists|i: int| 0 <= i < k + 1 && x == #[trigger] column_row(oid, columns@, i) {
                    let i = choose|i: int| 0 <= i < k + 1 && x == #[trigger] column_row(oid, columns@, i);
                    if i < k {
                        assert(exists|i2: int| 0 <= i2 < k && x == #[trigger] column_row(oid, columns@, i2));
                    } else {
                        assert(x == row_k);
                    }
                }
                if x == row_k {
                    assert(column_row(oid, columns@, k as int) == x);
                }
            }
            if a.has_free_frame() {
                let f = choose|f: int| 0 <= f < a.num_frames() && a.frame_pin(f) == 0;
                assert(pool.frame_pin(f) == 0);
            }
            assert(vstd::utf8::encode_utf8(columns@[k as int].0@).len() <= u64::MAX);
        }
        k = k + 1;
    }
    proof {
        assert forall|j: int| 0 <= j < attr_rows(*pool).len() implies match decode_attr(#[trigger] attr_rows(*pool)[j]) {
            Some((rr, _, num, _)) => rr == oid ==> num != columns@.len(),
            None => true,
        } by {
            let x = attr_rows(*pool)[j];
            assert(attr_rows(*pool).contains(x));
            if attr_rows(a).contains(x) {
                let jj = choose|jj: int| 0 <= jj < attr_rows(a).len() && attr_rows(a)[jj] == x;
                assert(!(decode_attr(attr_rows(a)[jj]) matches Some((r, _, _, _)) && r == oid));
            } else {
                let i = choose|i: int| 0 <= i < k && x == #[trigger] column_row(oid, columns@, i);
                law_attr_round_trip(oid, columns@[i].0@, i as u64, columns@[i].1 as u64);
            }
        }
    }
    Ok(())
}

/// An oid above every oid that `pg_class` lists and every relation `pg_attribute` describes,
/// and at least `FIRST_NORMAL_OID`.
fn fresh_oid(pool: &mut BufferPool, db_data: &str, db_name: &str) -> (r: Result<u32, Error>)
    requires
        old(pool).wf(),
        old(pool).pins_below_max(),
    ensures
        final(pool).wf(),
        final(pool).pins_below_max(),
        final(pool).num_frames() == old(pool).num_frames(),
        forall|g: int| 0 <= g < old(pool).num_frames() ==> #[trigger] final(pool).frame_pin(g) == old(pool).frame_pin(g),
        final(pool).contents() == old(pool).contents(),
        r matches Err(e) ==> e != Error::AlreadyExists,
        scannable(*old(pool), PG_CLASS_OID) && class_rows_decode(class_rows(*old(pool)))
            && scannable(*old(pool), PG_ATTRIBUTE_OID) && attr_rows_decode(attr_rows(*old(pool)))
            && (forall|k: int| 0 <= k < class_rows(*old(pool)).len() ==> match decode_class(#[trigger] class_rows(*old(pool))[k]) {
                Some((o, _)) => o < u32::MAX,
                None => true,
            })
            && (forall|k: int| 0 <= k < attr_rows(*old(pool)).len() ==> match decode_attr(#[trigger] attr_rows(*old(pool))[k]) {
                Some((o, _, _, _)) => o < u32::MAX,
                None => true,
            }) ==> r is Ok,
        r is Ok ==> old(pool).contents().contains_key(PG_CLASS_OID) && old(pool).contents().contains_key(PG_ATTRIBUTE_OID),
        r matches Ok(next) ==> next >= FIRST_NORMAL_OID && !has_row_of(attr_rows(*old(pool)), next)
            && forall|k: int| 0 <= k < class_rows(*old(pool)).len() ==>
                match decode_class(#[trigger] class_rows(*old(pool))[k]) {
                    Some((o, _)) => o < next,
                    None => false,
                },
{
    proof { pool.lemma_wf(); }
    let class_rel = Relation::open(PG_CLASS_OID, db_data, db_name, "pg_class");
    let rows = heap_scan(pool, &class_rel)?;
    let ghost tv = tuples_view(rows@);
    proof {
        assert forall|f: int| 0 <= f < pool.num_frames() implies #[trigger] pool.frame_pin(f) < u32::MAX by {
            assert(old(pool).frame_pin(f) < u32::MAX);
        }
        if old(pool).has_free_frame() {
            let f = choose|f: int| 0 <= f < old(pool).num_frames() && old(pool).frame_pin(f) == 0;
            assert(pool.frame_pin(f) == 0);
        }
    }
    let mut next: u32 = FIRST_NORMAL_OID;
    let mut i: usize = 0;
    while i < rows.len()
        invariant
            pool.wf(),
            pool.pins_below_max(),
            pool.num_frames() == old(pool).num_frames(),
            forall|g: int| 0 <= g < old(pool).num_frames() ==> #[trigger] pool.frame_pin(g) == old(pool).frame_pin(g),
            i <= rows@.len(),
            next >= FIRST_NORMAL_OID,
            tv == tuples_view(rows@),
            tv == class_rows(*old(pool)),
            pool.contents() == old(pool).contents(),
            forall|k: int| 0 <= k < i ==> match decode_class(#[trigger] tv[k]) {
                Some((o, _)) => o < next,
                None => false,
            },
        decreases rows@.len() - i,
    {
        assert(tv[i as int] == rows@[i as int].data@);
        let c = PgClass::deserialize(rows[i].data.as_slice())?;
        if c.oid >= next {
            if c.oid == u32::MAX {
                return Err(Error::Serialize(String::from_str("no oid is left")));
            }
            next = c.oid + 1;
        }
        i = i + 1;
    }
    let attr_rel = Relation::open(PG_ATTRIBUTE_OID, db_data, db_name, "pg_attribute");
    proof {
        assert forall|f: int| 0 <= f < pool.num_frames() implies #[trigger] pool.frame_pin(f) < u32::MAX by {
            assert(old(pool).frame_pin(f) < u32::MAX);
        }
    }
    let arows = heap_scan(pool, &attr_rel)?;
    let ghost av = tuples_view(arows@);
    proof {
        assert forall|f: int| 0 <= f < pool.num_frames() implies #[trigger] pool.frame_pin(f) < u32::MAX by {
            assert(old(pool).frame_pin(f) < u32::MAX);
        }
    }
    let mut i: usize = 0;
    while i < arows.len()
        invariant
            pool.wf(),
            pool.pins_below_max(),
            pool.num_frames() == old(pool).num_frames(),
            forall|g: int| 0 <= g < old(pool).num_frames() ==> #[trigger] pool.frame_pin(g) == old(pool).frame_pin(g),
            pool.contents() == old(pool).contents(),
            i <= arows@.len(),
            next >= FIRST_NORMAL_OID,
            av == tuples_view(arows@),
            av == attr_rows(*old(pool)),
            forall|k: int| 0 <= k < class_rows(*old(pool)).len() ==>
                match decode_class(#[trigger] class_rows(*old(pool))[k]) {
                    Some((o, _)) => o < next,
                    None => false,
                },
            forall|k: int| 0 <= k < i ==> match decode_attr(#[trigger] av[k]) {
                Some((o, _, _, _)) => o < next,
                None => false,
            },
        decreases arows@.len() - i,
    {
        assert(av[i as int] == arows@[i as int].data@);
        let at = PgAttribute::deserialize(arows[i].data.as_slice())?;
        if at.attrelid >= next {
            if at.attrelid == u32::MAX {
                return Err(Error::Serialize(String::from_str("no oid is left")));
            }
            next = at.attrelid + 1;
        }
        i = i + 1;
    }
    proof {
        assert(!has_row_of(attr_rows(*old(pool)), next)) by {
            if has_row_of(attr_rows(*old(pool)), next) {
                let j = choose|j: int| 0 <= j < attr_rows(*old(pool)).len()
                    && (#[trigger] decode_attr(attr_rows(*old(pool))[j]) matches Some((r, _, _, _)) && r == next);
                assert(j < arows@.len());
            }
        }
    }
    Ok(next)
}

/// Stores relation `next`: an empty first page, its `pg_class` row and its column rows.
fn create_with_oid(pool: &mut BufferPool, next: u32, db_data: &str, db_name: &str, rel_name: &str,
    columns: &Vec<(String, usize)>) -> (r: Result<(), Error>)
    requires
        old(pool).wf(),
        old(pool).pins_below_max(),
        next >= FIRST_NORMAL_OID,
        old(pool).contents().contains_key(PG_CLASS_OID),
        old(pool).contents().contains_key(PG_ATTRIBUTE_OID),
        !has_row_of(attr_rows(*old(pool)), next),
    ensures
        final(pool).wf(),
        final(pool).pins_below_max(),
        final(pool).num_frames() == old(pool).num_frames(),
        forall|g: int| 0 <= g < old(pool).num_frames() ==> #[trigger] final(pool).frame_pin(g) == old(pool).frame_pin(g),
        r == Err::<(), Error>(Error::AlreadyExists) ==> final(pool).contents() == old(pool).contents(),
        !old(pool).contents().contains_key(next) && old(pool).has_free_frame()
            && old(pool).contents()[PG_CLASS_OID].len() < u32::MAX - 1
            && old(pool).contents()[PG_ATTRIBUTE_OID].len() + columns@.len() < u32::MAX - 1
            && vstd::utf8::encode_utf8(rel_name@).len() + 12 <= MAX_TUPLE_SIZE
            && (forall|i: int| 0 <= i < columns@.len()
                ==> vstd::utf8::encode_utf8((#[trigger] columns@[i]).0@).len() + 28 <= MAX_TUPLE_SIZE) ==> r is Ok,
        r is Ok ==> {
            let cp = old(pool).contents()[PG_CLASS_OID];
            let row = class_bytes(next, rel_name@);
            &&& !old(pool).contents().contains_key(next)
            &&& final(pool).contents().contains_key(next)
            &&& final(pool).contents()[next] == seq![empty_page()]
            &&& inserted_at(cp, final(pool).contents()[PG_CLASS_OID], row, first_fit(cp, row.len() as int))
            &&& attrs_complete(attr_rows(*final(pool)), next, columns@.len() as int)
            &&& forall|x: Seq<u8>| #[trigger] attr_rows(*final(pool)).contains(x) <==>
                (attr_rows(*old(pool)).contains(x)
                || exists|i: int| 0 <= i < columns@.len() && x == #[trigger] column_row(next, columns@, i))
        },
{
    let ghost a0 = *pool;
    proof { a0.lemma_wf(); }
    let class_rel = Relation::open(PG_CLASS_OID, db_data, db_name, "pg_class");
    let attr_rel = Relation::open(PG_ATTRIBUTE_OID, db_data, db_name, "pg_attribute");
    let ghost before = *pool;
    let rel = create_storage(pool, next, db_data, db_name, rel_name)?;
    let class_row = PgClass { oid: next, relname: String::from_str(rel_name) };
    let ghost mid = *pool;
    proof {
        if a0.has_free_frame() {
            let f = choose|f: int| 0 <= f < a0.num_frames() && a0.frame_pin(f) == 0;
            assert(pool.frame_pin(f) == 0);
        }
        assert(mid.contents()[PG_CLASS_OID] == a0.contents()[PG_CLASS_OID]);
        assert(before.contents().contains_key(PG_CLASS_OID) ==> mid.contents()[PG_CLASS_OID] == before.contents()[PG_CLASS_OID]);
    }
    insert_row(pool, &class_rel, class_row.serialize())?;
    let ghost after_class = pool.contents()[PG_CLASS_OID];
    proof {
        assert(mid.contents().contains_key(next));
    }
    proof {
        assert(mid.contents().contains_key(PG_ATTRIBUTE_OID) ==> pool.contents()[PG_ATTRIBUTE_OID] == mid.contents()[PG_ATTRIBUTE_OID]);
        assert(attr_rows(*pool) == attr_rows(a0));
    }
    let ghost before_cols = *pool;
    proof {
        if a0.has_free_frame() {
            let f = choose|f: int| 0 <= f < a0.num_frames() && a0.frame_pin(f) == 0;
            assert(pool.frame_pin(f) == 0);
        }
        assert(pool.contents()[PG_ATTRIBUTE_OID] == a0.contents()[PG_ATTRIBUTE_OID]);
    }
    add_columns(pool, &attr_rel, next, columns)?;
    proof {
        assert(before_cols.contents().contains_key(next));
        assert(before_cols.contents().contains_key(PG_CLASS_OID));
        assert(attr_rows(before_cols) == attr_rows(a0));
    }
    proof {
        if a0.has_free_frame() {
            let f = choose|f: int| 0 <= f < a0.num_frames() && a0.frame_pin(f) == 0;
            assert(pool.frame_pin(f) == 0);
        }
    }
    Ok(())
}

/// Creates relation `rel_name` with the given `(name, width)` columns: a fresh oid above
/// every oid in `pg_class`, an empty first page, a `pg_class` row and one `pg_attribute` row
/// per column in declaration order. Returns the new oid.
#[verifier::rlimit(100)]
pub fn heap_create(pool: &mut BufferPool, db_data: &str, db_name: &str, rel_name: &str,
    columns: &Vec<(String, usize)>) -> (r: Result<u32, Error>)
    requires
        old(pool).wf(),
        old(pool).pins_below_max(),
    ensures
        final(pool).wf(),
        final(pool).pins_below_max(),
        final(pool).num_frames() == old(pool).num_frames(),
        forall|g: int| 0 <= g < old(pool).num_frames() ==> #[trigger] final(pool).frame_pin(g) == old(pool).frame_pin(g),
        r == Err::<u32, Error>(Error::AlreadyExists) ==> final(pool).contents() == old(pool).contents(),
        r matches Ok(oid) ==> attrs_complete(attr_rows(*final(pool)), oid, columns@.len() as int)
            && !has_row_of(attr_rows(*old(pool)), oid)
            && forall|x: Seq<u8>| #[trigger] attr_rows(*final(pool)).contains(x) <==>
                (attr_rows(*old(pool)).contains(x)
                || exists|i: int| 0 <= i < columns@.len() && x == #[trigger] column_row(oid, columns@, i)),
        r matches Ok(oid) ==> oid >= FIRST_NORMAL_OID && !old(pool).contents().contains_key(oid)
            && final(pool).contents().contains_key(oid) && final(pool).contents()[oid] == seq![empty_page()],
        r matches Ok(oid) ==> {
            let cp = old(pool).contents()[PG_CLASS_OID];
            let row = class_bytes(oid, rel_name@);
            &&& old(pool).contents().contains_key(PG_CLASS_OID)
            &&& inserted_at(cp, final(pool).contents()[PG_CLASS_OID], row, first_fit(cp, row.len() as int))
        },
        r matches Ok(oid) ==> forall|k: int| 0 <= k < class_rows(*old(pool)).len() ==>
            match decode_class(#[trigger] class_rows(*old(pool))[k]) {
                Some((o, _)) => o < oid,
                None => false,
            },
        scannable(*old(pool), PG_CLASS_OID) && class_found(*old(pool), rel_name@)
            ==> r == Err::<u32, Error>(Error::AlreadyExists),
        can_create(*old(pool), rel_name@, columns@) ==> r is Ok,
{
    let ghost owed = can_create(*old(pool), rel_name@, columns@);
    proof {
        if owed {
            assert forall|k: int| 0 <= k < class_rows(*old(pool)).len() implies
                decode_class(#[trigger] class_rows(*old(pool))[k]) is Some
                && !class_named(class_rows(*old(pool))[k], rel_name@) by {
                if class_named(class_rows(*old(pool))[k], rel_name@) {
                    assert(class_found(*old(pool), rel_name@));
                }
            }
        }
    }
    let catalog = Catalog::new(db_data);
    match catalog.get_oid_relation(pool, db_name, rel_name) {
        Ok(_) => {
            return Err(Error::AlreadyExists);
        },
        Err(Error::RelationNotFound) => {},
        Err(e) => {
            return Err(e);
        },
    }
    let ghost absent = !(scannable(*old(pool), PG_CLASS_OID) && class_found(*old(pool), rel_name@));
    proof {
        assert(absent);
        assert forall|f: int| 0 <= f < pool.num_frames() implies #[trigger] pool.frame_pin(f) < u32::MAX by {
            assert(old(pool).frame_pin(f) < u32::MAX);
        }
    }
    proof {
        assert forall|f: int| 0 <= f < pool.num_frames() implies #[trigger] pool.frame_pin(f) < u32::MAX by {
            assert(old(pool).frame_pin(f) < u32::MAX);
        }
        if owed {
            let f = choose|f: int| 0 <= f < old(pool).num_frames() && old(pool).frame_pin(f) == 0;
            assert(pool.frame_pin(f) == 0);
            assert(class_rows(*pool) == class_rows(*old(pool)));
            assert(attr_rows(*pool) == attr_rows(*old(pool)));
        }
    }
    let ghost p1 = *pool;
    let next = fresh_oid(pool, db_data, db_name)?;
    proof {
        assert(class_rows(p1) == class_rows(*old(pool)));
        assert(attr_rows(p1) == attr_rows(*old(pool)));
        if owed {
            let f = choose|f: int| 0 <= f < old(pool).num_frames() && old(pool).frame_pin(f) == 0;
            assert(pool.frame_pin(f) == 0);
            if pool.contents().contains_key(next) {
                assert(old(pool).contents().contains_key(next));
                let k = choose|k: int| 0 <= k < class_rows(*old(pool)).len()
                    && (#[trigger] decode_class(class_rows(*old(pool))[k]) matches Some((c, _)) && c == next);
            }
        }
    }
    let ghost p2 = *pool;
    create_with_oid(pool, next, db_data, db_name, rel_name, columns)?;
    proof {
        assert(class_rows(p2) == class_rows(*old(pool)));
        assert(attr_rows(p2) == attr_rows(*old(pool)));
    }
    Ok(next)
}

/// A name of at most 12 ASCII characters, as a `String`.
fn short_name(s: &str) -> (r: String)
    requires
        s@.len() <= 12,
        vstd::utf8::is_ascii_chars(s@),
    ensures
        r@ == s@,
        vstd::utf8::encode_utf8(r@).len() <= 12,
{
    proof { vstd::utf8::is_ascii_chars_encode_utf8(s@); }
    String::from_str(s)
}

/// The rows of the bootstrap `pg_class`: `pg_class` itself, then `pg_attribute`.
pub open spec fn bootstrap_class_rows() -> Seq<Seq<u8>> {
    seq![class_bytes(PG_CLASS_OID, "pg_class"@), class_bytes(PG_ATTRIBUTE_OID, "pg_attribute"@)]
}

/// The rows of the bootstrap `pg_attribute`: the columns of `pg_class`, then those of
/// `pg_attribute`, each relation's in column order.
pub open spec fn bootstrap_attr_rows() -> Seq<Seq<u8>> {
    seq![
        attr_bytes(PG_CLASS_OID, "oid"@, 0, 4),
        attr_bytes(PG_CLASS_OID, "relname"@, 1, 64),
        attr_bytes(PG_ATTRIBUTE_OID, "attrelid"@, 0, 4),
        attr_bytes(PG_ATTRIBUTE_OID, "attname"@, 1, 64),
        attr_bytes(PG_ATTRIBUTE_OID, "attnum"@, 2, 8),
        attr_bytes(PG_ATTRIBUTE_OID, "attlen"@, 3, 8),
    ]
}

/// The stored bootstrap `pg_class` rows.
fn bootstrap_classes() -> (r: Vec<Vec<u8>>)
    ensures
        r@.map_values(|v: Vec<u8>| v@) == bootstrap_class_rows(),
        r@.len() == 2,
        forall|i: int| 0 <= i < r@.len() ==> 0 < (#[trigger] r@[i])@.len() <= 40,
{
    proof {
        reveal_strlit("pg_class");
        reveal_strlit("pg_attribute");
    }
    let c0 = PgClass { oid: PG_CLASS_OID, relname: short_name("pg_class") };
    let c1 = PgClass { oid: PG_ATTRIBUTE_OID, relname: short_name("pg_attribute") };
    let r: Vec<Vec<u8>> = vec![c0.serialize(), c1.serialize()];
    assert(r@.map_values(|v: Vec<u8>| v@) =~= bootstrap_class_rows());
    r
}

/// One stored `pg_attribute` row of the bootstrap catalog.
fn bootstrap_attr(rel: u32, name: &str, num: usize, len: usize) -> (r: Vec<u8>)
    requires
        name@.len() <= 12,
        vstd::utf8::is_ascii_chars(name@),
    ensures
        r@ == attr_bytes(rel, name@, num as u64, len as u64),
        0 < r@.len() <= 40,
{
    PgAttribute { attrelid: rel, attname: short_name(name), attnum: num, attlen: len }.serialize()
}

/// The stored bootstrap `pg_attribute` rows.
fn bootstrap_attrs() -> (r: Vec<Vec<u8>>)
    ensures
        r@.map_values(|v: Vec<u8>| v@) == bootstrap_attr_rows(),
        r@.len() == 6,
        forall|i: int| 0 <= i < r@.len() ==> 0 < (#[trigger] r@[i])@.len() <= 40,
{
    proof {
        reveal_strlit("oid");
        reveal_strlit("relname");
        reveal_strlit("attrelid");
        reveal_strlit("attname");
        reveal_strlit("attnum");
        reveal_strlit("attlen");
    }
    let r: Vec<Vec<u8>> = vec![
        bootstrap_attr(PG_CLASS_OID, "oid", 0, 4),
        bootstrap_attr(PG_CLASS_OID, "relname", 1, 64),
        bootstrap_attr(PG_ATTRIBUTE_OID, "attrelid", 0, 4),
        bootstrap_attr(PG_ATTRIBUTE_OID, "attname", 1, 64),
        bootstrap_attr(PG_ATTRIBUTE_OID, "attnum", 2, 8),
        bootstrap_attr(PG_ATTRIBUTE_OID, "attlen", 3, 8),
    ];
    assert(r@.map_values(|v: Vec<u8>| v@) =~= bootstrap_attr_rows());
    r
}

/// Inserts `rows`, each at most 40 bytes, into a relation made of one page with room for
/// all of them: they land on that page, after its items, in order.
fn insert_rows(pool: &mut BufferPool, rel: &Relation, rows: &Vec<Vec<u8>>) -> (r: Result<(), Error>)
    requires
        old(pool).wf(),
        old(pool).pins_below_max(),
        old(pool).has_free_frame(),
        old(pool).contents().contains_key(rel.oid),
        old(pool).contents()[rel.oid].len() == 1,
        page_wf(old(pool).contents()[rel.oid][0]),
        free_space(old(pool).contents()[rel.oid][0]) >= 44 * rows@.len(),
        forall|i: int| 0 <= i < rows@.len() ==> 0 < (#[trigger] rows@[i])@.len() <= 40,
    ensures
        r is Ok,
        final(pool).wf(),
        final(pool).pins_below_max(),
        final(pool).num_frames() == old(pool).num_frames(),
        forall|g: int| 0 <= g < old(pool).num_frames() ==> #[trigger] final(pool).frame_pin(g) == old(pool).frame_pin(g),
        final(pool).contents().dom() == old(pool).contents().dom(),
        forall|o: u32| o != rel.oid && #[trigger] old(pool).contents().contains_key(o)
            ==> final(pool).contents()[o] == old(pool).contents()[o],
        final(pool).contents()[rel.oid].len() == 1,
        page_wf(final(pool).contents()[rel.oid][0]),
        page_items(final(pool).contents()[rel.oid][0])
            == page_items(old(pool).contents()[rel.oid][0]) + rows@.map_values(|v: Vec<u8>| v@),
{
    let ghost a = *pool;
    let mut i: usize = 0;
    while i < rows.len()
        invariant
            pool.wf(),
            pool.num_frames() == a.num_frames(),
            a.pins_below_max(),
            a.has_free_frame(),
            a.contents().contains_key(rel.oid),
            forall|g: int| 0 <= g < a.num_frames() ==> #[trigger] pool.frame_pin(g) == a.frame_pin(g),
            pool.contents().dom() == a.contents().dom(),
            forall|o: u32| o != rel.oid && #[trigger] a.contents().contains_key(o)
                ==> pool.contents()[o] == a.contents()[o],
            pool.contents()[rel.oid].len() == 1,
            page_wf(pool.contents()[rel.oid][0]),
            free_space(pool.contents()[rel.oid][0]) >= 44 * (rows@.len() - i),
            forall|k: int| 0 <= k < rows@.len() ==> 0 < (#[trigger] rows@[k])@.len() <= 40,
            page_items(pool.contents()[rel.oid][0])
                == page_items(a.contents()[rel.oid][0]) + rows@.subrange(0, i as int).map_values(|v: Vec<u8>| v@),
            i <= rows@.len(),
        decreases rows@.len() - i,
    {
        let ghost b = *pool;
        let ghost pages = b.contents()[rel.oid];
        let ghost len = rows@[i as int]@.len() as int;
        proof {
            assert forall|f: int| 0 <= f < b.num_frames() implies #[trigger] b.frame_pin(f) < u32::MAX by {
                assert(a.frame_pin(f) < u32::MAX);
            }
            let f = choose|f: int| 0 <= f < a.num_frames() && a.frame_pin(f) == 0;
            assert(b.frame_pin(f) == 0);
            crate::heap::lemma_first_fit(pages, len, 0);
        }
        let t = HeapTuple { data: rows[i].clone() };
        assert(t.data@ == rows@[i as int]@);
        let r = heap_insert(pool, rel, &t);
        proof {
            assert(r is Ok);
            let np = pool.contents()[rel.oid];
            assert(pool.contents().dom() =~= a.contents().dom());
            assert(rows@.subrange(0, i + 1).map_values(|v: Vec<u8>| v@)
                =~= rows@.subrange(0, i as int).map_values(|v: Vec<u8>| v@).push(rows@[i as int]@));
            assert(page_items(np[0]) =~= page_items(a.contents()[rel.oid][0])
                + rows@.subrange(0, i + 1).map_values(|v: Vec<u8>| v@));
        }
        i = i + 1;
    }
    proof {
        assert(rows@.subrange(0, rows@.len() as int) =~= rows@);
        assert forall|f: int| 0 <= f < pool.num_frames() implies #[trigger] pool.frame_pin(f) < u32::MAX by {
            assert(a.frame_pin(f) < u32::MAX);
        }
    }
    Ok(())
}

/// The tuples of a one-page relation are that page's items.
proof fn lemma_one_page(pages: Seq<Seq<u8>>)
    requires
        pages.len() == 1,
    ensures
        rel_tuples(pages) == page_items(pages[0]),
{
    assert(pages.drop_last() =~= Seq::<Seq<u8>>::empty());
    assert(rel_tuples(pages.drop_last()) == Seq::<Seq<u8>>::empty());
    assert(pages.last() == pages[0]);
    assert(rel_tuples(pages) =~= page_items(pages[0]));
}

/// Writes the bootstrap rows into two fresh catalog relations of one empty page each.
#[verifier::rlimit(100)]
fn populate_catalog(pool: &mut BufferPool, class_rel: &Relation, attr_rel: &Relation) -> (r: Result<(), Error>)
    requires
        old(pool).wf(),
        old(pool).pins_below_max(),
        old(pool).has_free_frame(),
        class_rel.oid == PG_CLASS_OID,
        attr_rel.oid == PG_ATTRIBUTE_OID,
        old(pool).contents().contains_key(PG_CLASS_OID),
        old(pool).contents().contains_key(PG_ATTRIBUTE_OID),
        old(pool).contents()[PG_CLASS_OID] == seq![empty_page()],
        old(pool).contents()[PG_ATTRIBUTE_OID] == seq![empty_page()],
    ensures
        r is Ok,
        final(pool).wf(),
        final(pool).pins_below_max(),
        final(pool).num_frames() == old(pool).num_frames(),
        forall|g: int| 0 <= g < old(pool).num_frames() ==> #[trigger] final(pool).frame_pin(g) == old(pool).frame_pin(g),
        final(pool).contents().dom() == old(pool).contents().dom(),
        class_rows(*final(pool)) == bootstrap_class_rows(),
        attr_rows(*final(pool)) == bootstrap_attr_rows(),
        all_pages_wf(final(pool).contents()[PG_CLASS_OID]),
        all_pages_wf(final(pool).contents()[PG_ATTRIBUTE_OID]),
{
    let ghost a = *pool;
    proof { crate::bufpage::lemma_empty_page(); }
    let classes = bootstrap_classes();
    proof {
        assert(page_items(empty_page()) + classes@.map_values(|v: Vec<u8>| v@) =~= bootstrap_class_rows());
    }
    insert_rows(pool, class_rel, &classes)?;
    let ghost mid = *pool;
    proof {
        assert(a.contents().contains_key(PG_ATTRIBUTE_OID));
        assert(mid.contents()[PG_ATTRIBUTE_OID] == a.contents()[PG_ATTRIBUTE_OID]);
        let f = choose|f: int| 0 <= f < a.num_frames() && a.frame_pin(f) == 0;
        assert(mid.frame_pin(f) == 0);
    }
    let attrs = bootstrap_attrs();
    proof {
        assert(page_items(empty_page()) + attrs@.map_values(|v: Vec<u8>| v@) =~= bootstrap_attr_rows());
    }
    insert_rows(pool, attr_rel, &attrs)?;
    proof {
        assert(mid.contents().contains_key(PG_CLASS_OID));
        lemma_one_page(pool.contents()[PG_CLASS_OID]);
        lemma_one_page(pool.contents()[PG_ATTRIBUTE_OID]);
    }
    Ok(())
}

/// Provisions the two catalog relations of a new database and records in them the
/// relations `pg_class` and `pg_attribute` and their columns.
pub fn init_database(pool: &mut BufferPool, db_data: &str, db_name: &str) -> (r: Result<(), Error>)
    requires
        old(pool).wf(),
        old(pool).pins_below_max(),
    ensures
        final(pool).wf(),
        final(pool).pins_below_max(),
        final(pool).num_frames() == old(pool).num_frames(),
        forall|g: int| 0 <= g < old(pool).num_frames() ==> #[trigger] final(pool).frame_pin(g) == old(pool).frame_pin(g),
        old(pool).contents().contains_key(PG_CLASS_OID) || old(pool).contents().contains_key(PG_ATTRIBUTE_OID)
            ==> r == Err::<(), Error>(Error::AlreadyExists) && *final(pool) == *old(pool),
        !old(pool).contents().contains_key(PG_CLASS_OID) && !old(pool).contents().contains_key(PG_ATTRIBUTE_OID)
            && old(pool).has_free_frame() ==> r is Ok,
        r is Ok ==> {
            &&& final(pool).contents().contains_key(PG_CLASS_OID)
            &&& final(pool).contents().contains_key(PG_ATTRIBUTE_OID)
            &&& class_rows(*final(pool)) == bootstrap_class_rows()
            &&& attr_rows(*final(pool)) == bootstrap_attr_rows()
            &&& all_pages_wf(final(pool).contents()[PG_CLASS_OID])
            &&& all_pages_wf(final(pool).contents()[PG_ATTRIBUTE_OID])
        },
{
    if pool.pager(PG_CLASS_OID).is_some() || pool.pager(PG_ATTRIBUTE_OID).is_some() {
        proof { pool.lemma_wf(); }
        return Err(Error::AlreadyExists);
    }
    proof { pool.lemma_wf(); }
    let ghost a = *pool;
    let class_rel = create_storage(pool, PG_CLASS_OID, db_data, db_name, "pg_class")?;
    let ghost b = *pool;
    proof {
        let f = choose|f: int| 0 <= f < a.num_frames() && a.frame_pin(f) == 0;
        assert(b.frame_pin(f) == 0);
    }
    let attr_rel = create_storage(pool, PG_ATTRIBUTE_OID, db_data, db_name, "pg_attribute")?;
    proof {
        let f = choose|f: int| 0 <= f < a.num_frames() && a.frame_pin(f) == 0;
        assert(pool.frame_pin(f) == 0);
        assert(b.contents().contains_key(PG_CLASS_OID));
    }
    let r = populate_catalog(pool, &class_rel, &attr_rel);
    proof { pool.lemma_wf(); }
    r
}

} // verus!
