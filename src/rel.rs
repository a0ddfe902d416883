use vstd::prelude::*;

verus! {

/// Identity of a relation and the path of the file that stores it.
#[derive(Debug)]
pub struct Relation {
    pub oid: u32,
    pub db_name: String,
    pub rel_name: String,
    pub file_path: String,
}

/// `{db_data}/{db_name}/{rel_name}`.
pub open spec fn relation_path(db_data: Seq<char>, db_name: Seq<char>, rel_name: Seq<char>) -> Seq<char> {
    db_data + seq!['/'] + db_name + seq!['/'] + rel_name
}

impl Relation {
    /// Describes relation `oid`, stored at `{db_data}/{db_name}/{rel_name}`.
    pub fn open(oid: u32, db_data: &str, db_name: &str, rel_name: &str) -> (r: Relation)
        ensures
            r.oid == oid,
            r.db_name@ == db_name@,
            r.rel_name@ == rel_name@,
            r.file_path@ == relation_path(db_data@, db_name@, rel_name@),
    {
        let mut path = String::from_str(db_data);
        path.append("/");
        path.append(db_name);
        path.append("/");
        path.append(rel_name);
        proof {
            reveal_strlit("/");
        }
        assert(path@ =~= relation_path(db_data@, db_name@, rel_name@));
        Relation { oid, db_name: String::from_str(db_name), rel_name: String::from_str(rel_name), file_path: path }
    }
}

} // verus!
