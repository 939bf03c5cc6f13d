pub mod connection;

use vstd::prelude::*;

use crate::db::connection::{
    load_index, seed_next_id, Connection, DbQueryError,
};
use crate::json::field::SpecField;
use crate::json::parser::{parse_json, spec_value};

verus! {

/// Whether a record file's text parses to an array root, so that a
/// store can open over it.
pub open spec fn store_ok(text: Seq<char>) -> bool {
    &&& spec_value(text, 0) is Ok
    &&& spec_value(text, 0)->Ok_0.0 is Array
}

/// The error opening a store over this text reports: the parse error,
/// or the mismatched root tag.
pub open spec fn store_error(text: Seq<char>) -> DbQueryError {
    match spec_value(text, 0) {
        Result::Ok(p) => DbQueryError::TypeMismatch(
            crate::json::field::TypeMismatch {
                expected: crate::json::field::JsonFieldType::Array,
                actual: p.0.tag(),
            },
        ),
        Result::Err(e) => DbQueryError::Parse(e),
    }
}

/// Whether `conn` is the store that loading `text` opens: well-formed,
/// rooted at the parsed array, indexed as the load walk indexes it,
/// counting from one past the largest indexed id, with the given
/// persistence mode.
pub open spec fn loaded_from(conn: Connection, text: Seq<char>, dry: bool) -> bool {
    &&& store_ok(text)
    &&& conn.wf()
    &&& conn.root() == spec_value(text, 0)->Ok_0.0
    &&& conn.root() matches SpecField::Array(elems) ==> conn.index() == load_index(elems)
        && conn.next_id() == seed_next_id(load_index(elems))
    &&& conn.is_dry() == dry
}

/// The first store registered under `name`, if any.
pub open spec fn find_store(entries: Seq<(Seq<char>, Connection)>, name: Seq<char>) -> Option<
    Connection,
>
    decreases entries,
{
    if entries.len() == 0 {
        Option::None
    } else if entries[0].0 == name {
        Option::Some(entries[0].1)
    } else {
        find_store(entries.drop_first(), name)
    }
}

/// `find_store` answers by the first entry whose name matches.
proof fn lemma_find_store_at(entries: Seq<(Seq<char>, Connection)>, name: Seq<char>, j: int)
    requires
        0 <= j < entries.len(),
        entries[j].0 == name,
        forall|k: int| 0 <= k < j ==> (#[trigger] entries[k]).0 != name,
    ensures
        find_store(entries, name) == Option::Some(entries[j].1),
    decreases j,
{
    if j > 0 {
        assert forall|k: int| 0 <= k < j - 1 implies (#[trigger] entries.drop_first()[k]).0
            != name by {
            assert(entries.drop_first()[k] == entries[k + 1]);
        }
        assert(entries.drop_first()[j - 1] == entries[j]);
        lemma_find_store_at(entries.drop_first(), name, j - 1);
    }
}

/// `find_store` finds nothing when no entry's name matches.
proof fn lemma_find_store_none(entries: Seq<(Seq<char>, Connection)>, name: Seq<char>)
    requires
        forall|k: int| 0 <= k < entries.len() ==> (#[trigger] entries[k]).0 != name,
    ensures
        find_store(entries, name) is None,
    decreases entries.len(),
{
    if entries.len() > 0 {
        assert forall|k: int| 0 <= k < entries.len() - 1 implies (
        #[trigger] entries.drop_first()[k]).0 != name by {
            assert(entries.drop_first()[k] == entries[k + 1]);
        }
        lemma_find_store_none(entries.drop_first(), name);
    }
}

/// The file suffix a record file must carry.
pub open spec fn json_suffix() -> Seq<char> {
    seq!['.', 'j', 's', 'o', 'n']
}

/// The reserved file name that is never opened as a store.
pub open spec fn schema_file_name() -> Seq<char> {
    seq!['s', 'c', 'h', 'e', 'm', 'a', '.', 'j', 's', 'o', 'n']
}

/// The store name a directory entry contributes: its stem, where the
/// name ends in the record suffix and is not the reserved schema file.
pub open spec fn eligible_stem(name: Seq<char>) -> Option<Seq<char>> {
    if name.len() >= 5 && name.subrange(name.len() - 5, name.len() as int) == json_suffix()
        && name != schema_file_name() {
        Option::Some(name.take(name.len() - 5))
    } else {
        Option::None
    }
}

/// The store name a directory entry contributes, if any: record files
/// are addressed by their stem, and the reserved schema file is never
/// opened as a store.
pub fn eligible_store_stem(file_name: &str) -> (r: Option<String>)
    ensures
        match eligible_stem(file_name@) {
            Option::Some(stem) => r matches Some(out) && out@ == stem,
            Option::None => r is None,
        },
{
    let chars = crate::json::parser::str_to_chars(file_name);
    let n = chars.len();
    if n < 5 {
        return Option::None;
    }
    let ghost name = file_name@;
    if !(chars[n - 5] == '.' && chars[n - 4] == 'j' && chars[n - 3] == 's' && chars[n - 2] == 'o'
        && chars[n - 1] == 'n') {
        proof {
            if name.subrange(name.len() - 5, name.len() as int) == json_suffix() {
                assert(name.subrange(name.len() - 5, name.len() as int)[0] == '.');
                assert(name.subrange(name.len() - 5, name.len() as int)[1] == 'j');
                assert(name.subrange(name.len() - 5, name.len() as int)[2] == 's');
                assert(name.subrange(name.len() - 5, name.len() as int)[3] == 'o');
                assert(name.subrange(name.len() - 5, name.len() as int)[4] == 'n');
                assert(name[name.len() - 5] == '.' && name[name.len() - 4] == 'j' && name[name.len()
                    - 3] == 's' && name[name.len() - 2] == 'o' && name[name.len() - 1] == 'n');
            }
        }
        return Option::None;
    }
    proof {
        assert(name.subrange(name.len() - 5, name.len() as int) =~= json_suffix());
    }
    let schema = String::from_str("schema.json");
    let whole = String::from_str(file_name);
    proof {
        reveal_strlit("schema.json");
        assert(schema@ =~= schema_file_name());
    }
    if whole.eq(&schema) {
        return Option::None;
    }
    let stem = file_name.substring_char(0, n - 5);
    proof {
        assert(stem@ =~= name.take(name.len() - 5));
    }
    Option::Some(String::from_str(stem))
}

/// The registry of stores: one open `Connection` per record file, each
/// addressable under its file stem.
pub struct JsonDb {
    connections: Vec<(String, Connection)>,
}

impl JsonDb {
    /// The registered stores: each name with its open store, in
    /// registration order.
    pub closed spec fn entries(self) -> Seq<(Seq<char>, Connection)> {
        self.connections@.map_values(|p: (String, Connection)| (p.0@, p.1))
    }

    /// Every registered store is well-formed.
    pub open spec fn wf(self) -> bool {
        forall|k: int| 0 <= k < self.entries().len() ==> (#[trigger] self.entries()[k]).1.wf()
    }

    /// Opens one store per named text, in order: each text must parse
    /// to an array root, and the whole startup fails on the first one
    /// that does not — no partial registry is ever returned. With
    /// `dry_run` set, every store applies inserts in memory only.
    pub fn new(stores: Vec<(String, String)>, dry_run: bool) -> (r: Result<JsonDb, DbQueryError>)
        ensures
            r is Ok <==> (forall|k: int| 0 <= k < stores@.len() ==> store_ok(#[trigger] stores@[k].1@)),
            r matches Ok(db) ==> ({
                &&& db.wf()
                &&& db.entries().len() == stores@.len()
                &&& forall|k: int|
                    0 <= k < stores@.len() ==> (#[trigger] db.entries()[k]).0 == stores@[k].0@
                        && loaded_from(db.entries()[k].1, stores@[k].1@, dry_run)
            }),
            r matches Err(e) ==> exists|k: int|
                0 <= k < stores@.len() && !store_ok(#[trigger] stores@[k].1@) && e == store_error(
                    stores@[k].1@,
                ) && (forall|j: int| 0 <= j < k ==> store_ok(#[trigger] stores@[j].1@)),
    {
        let mut connections: Vec<(String, Connection)> = Vec::new();
        let mut i: usize = 0;
        while i < stores.len()
            invariant
                0 <= i <= stores@.len(),
                connections@.len() == i,
                forall|j: int| 0 <= j < i ==> store_ok(#[trigger] stores@[j].1@),
                forall|j: int|
                    0 <= j < i ==> (#[trigger] connections@[j]).0@ == stores@[j].0@
                        && loaded_from(connections@[j].1, stores@[j].1@, dry_run),
            decreases stores@.len() - i,
        {
            match parse_json(stores[i].1.as_str(), 0) {
                Result::Err(e) => {
                    return Result::Err(DbQueryError::Parse(e));
                },
                Result::Ok((value, _last)) => {
                    match Connection::new(value) {
                        Result::Err(e) => {
                            return Result::Err(e);
                        },
                        Result::Ok(conn) => {
                            let mut conn = conn;
                            if dry_run {
                                conn.dry_run();
                            }
                            let name = stores[i].0.clone();
                            connections.push((name, conn));
                        },
                    }
                },
            }
            i = i + 1;
        }
        proof {
            assert forall|k: int| 0 <= k < stores@.len() implies store_ok(
                #[trigger] stores@[k].1@,
            ) by {}
        }
        Result::Ok(JsonDb { connections })
    }

    /// The store registered under `entrypoint`, or `UnknownStore` where
    /// none is.
    pub fn get_entry(&self, entrypoint: &str) -> (r: Result<&Connection, DbQueryError>)
        ensures
            match find_store(self.entries(), entrypoint@) {
                Option::Some(c) => r matches Ok(conn) && *conn == c,
                Option::None => r matches Err(e) && e matches DbQueryError::UnknownStore(n) && n@
                    == entrypoint@,
            },
    {
        let wanted = String::from_str(entrypoint);
        let mut k: usize = 0;
        while k < self.connections.len()
            invariant
                0 <= k <= self.connections@.len(),
                wanted@ == entrypoint@,
                forall|j: int| 0 <= j < k ==> (#[trigger] self.connections@[j]).0@ != entrypoint@,
            decreases self.connections@.len() - k,
        {
            if self.connections[k].0.eq(&wanted) {
                proof {
                    assert forall|j: int| 0 <= j < k implies (#[trigger] self.entries()[j]).0
                        != entrypoint@ by {
                        assert(self.entries()[j] == (
                            self.connections@[j].0@,
                            self.connections@[j].1,
                        ));
                    }
                    assert(self.entries()[k as int].0 == entrypoint@);
                    lemma_find_store_at(self.entries(), entrypoint@, k as int);
                }
                return Result::Ok(&self.connections[k].1);
            }
            k = k + 1;
        }
        proof {
            assert forall|j: int| 0 <= j < self.entries().len() implies (
            #[trigger] self.entries()[j]).0 != entrypoint@ by {
                assert(self.entries()[j] == (self.connections@[j].0@, self.connections@[j].1));
            }
            lemma_find_store_none(self.entries(), entrypoint@);
        }
        Result::Err(DbQueryError::UnknownStore(wanted))
    }
}

} // verus!
