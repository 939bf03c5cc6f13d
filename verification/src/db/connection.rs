use vstd::prelude::*;

use crate::json::field::{
    sobj_get, sobj_insert, JsonField, JsonFieldType, ParseJsonError, SpecField, TypeMismatch,
};
use crate::json::stringify::spec_stringify;

verus! {

/// The reason a store operation failed.
#[derive(Debug)]
pub enum DbQueryError {
    /// An operation met a value of the wrong variant: a non-object
    /// record, or a store root that is not an array.
    TypeMismatch(TypeMismatch),
    /// No record carries the requested id.
    NotFound(i64),
    /// No store is registered under the requested name.
    UnknownStore(String),
    /// The backing file could not be read at startup; fatal.
    LoadError(String),
    /// A record file did not parse; fatal at startup.
    Parse(ParseJsonError),
    /// The backing file could not be rewritten after an insert; the
    /// in-memory state keeps the record nonetheless.
    PersistError(String),
}

/// The id a record is reachable under: the value of its `id` member,
/// where the record is an object and that member an integer.
pub open spec fn record_id(v: SpecField) -> Option<i64> {
    match v {
        SpecField::Object(members) => match sobj_get(members, seq!['i', 'd']) {
            Option::Some(SpecField::Int(id)) => Option::Some(id),
            _ => Option::None,
        },
        _ => Option::None,
    }
}

/// The first entry of the index bound to `id`, if any.
pub open spec fn idx_get(idx: Seq<(i64, Seq<char>)>, id: i64) -> Option<Seq<char>>
    decreases idx,
{
    if idx.len() == 0 {
        Option::None
    } else if idx[0].0 == id {
        Option::Some(idx[0].1)
    } else {
        idx_get(idx.drop_first(), id)
    }
}

/// Index insertion with map semantics: the first entry with the same id
/// is replaced in place; a new id is appended at the end.
pub open spec fn idx_insert(idx: Seq<(i64, Seq<char>)>, id: i64, text: Seq<char>) -> Seq<
    (i64, Seq<char>),
>
    decreases idx,
{
    if idx.len() == 0 {
        seq![(id, text)]
    } else if idx[0].0 == id {
        seq![(id, text)] + idx.drop_first()
    } else {
        seq![idx[0]] + idx_insert(idx.drop_first(), id, text)
    }
}

/// What `idx_get` answers after an `idx_insert`: the inserted text under
/// the inserted id, and the old answer under any other.
pub proof fn lemma_idx_insert_get(idx: Seq<(i64, Seq<char>)>, id: i64, text: Seq<char>, other: i64)
    ensures
        idx_get(idx_insert(idx, id, text), other) == if other == id {
            Option::Some(text)
        } else {
            idx_get(idx, other)
        },
    decreases idx,
{
    reveal_with_fuel(idx_get, 3);
    if idx.len() == 0 {
        let grown = seq![(id, text)];
        assert(grown.drop_first() =~= Seq::<(i64, Seq<char>)>::empty());
    }
    if idx.len() > 0 {
        if idx[0].0 == id {
            let grown = seq![(id, text)] + idx.drop_first();
            assert(grown[0] == (id, text));
            assert(grown.drop_first() =~= idx.drop_first());
        } else {
            lemma_idx_insert_get(idx.drop_first(), id, text, other);
            let grown = seq![idx[0]] + idx_insert(idx.drop_first(), id, text);
            assert(grown[0] == idx[0]);
            assert(grown.drop_first() =~= idx_insert(idx.drop_first(), id, text));
        }
    }
}

/// The id index a loaded root array gives rise to: walking the elements
/// in order, each object whose `id` member is an integer is indexed
/// under that integer, mapped to its own serialized text; a later record
/// with the same id replaces the earlier one.
pub open spec fn load_index(elems: Seq<SpecField>) -> Seq<(i64, Seq<char>)>
    decreases elems.len(),
{
    if elems.len() == 0 {
        Seq::empty()
    } else {
        let prev = load_index(elems.drop_last());
        match record_id(elems.last()) {
            Option::Some(id) => idx_insert(prev, id, spec_stringify(elems.last())),
            Option::None => prev,
        }
    }
}

/// The largest id the index holds, or zero where it holds none or only
/// negative ids.
pub open spec fn max_id(idx: Seq<(i64, Seq<char>)>) -> int
    decreases idx.len(),
{
    if idx.len() == 0 {
        0
    } else {
        let m = max_id(idx.drop_last());
        if idx.last().0 > m {
            idx.last().0 as int
        } else {
            m
        }
    }
}

/// The counter value a freshly loaded store starts from: one past the
/// largest indexed id, held at the top of the 64-bit range when a record
/// already carries that extreme id.
pub open spec fn seed_next_id(idx: Seq<(i64, Seq<char>)>) -> int {
    if max_id(idx) < i64::MAX {
        max_id(idx) + 1
    } else {
        i64::MAX as int
    }
}

/// The model of an index vector: each entry's id with its text.
pub open spec fn idx_model(m: Seq<(i64, String)>) -> Seq<(i64, Seq<char>)> {
    m.map_values(|p: (i64, String)| (p.0, p.1@))
}

/// One backing file's in-memory table: the parsed root array, the id
/// index over it, the persistence switch, and the id counter for new
/// records.
#[derive(Debug)]
pub struct Connection {
    json: JsonField,
    dry_run: bool,
    mapped: Vec<(i64, String)>,
    next_id: i64,
}

impl Connection {
    /// The model of the root value; always an array for a well-formed
    /// store.
    pub closed spec fn root(self) -> SpecField {
        self.json.model()
    }

    /// The model of the id index: each indexed id with the serialized
    /// text of its record.
    pub closed spec fn index(self) -> Seq<(i64, Seq<char>)> {
        idx_model(self.mapped@)
    }

    /// Whether inserts stay in memory only.
    pub closed spec fn is_dry(self) -> bool {
        self.dry_run
    }

    /// The id the next successful insert will assign.
    pub closed spec fn next_id(self) -> int {
        self.next_id as int
    }

    /// Well-formedness: the root is an array, the counter starts at one
    /// or later, and every indexed id lies below the counter, except
    /// that a store holding the largest representable id pins the
    /// counter there and can assign no further id.
    pub closed spec fn wf(self) -> bool {
        &&& self.json.model() is Array
        &&& self.next_id >= 1
        &&& forall|k: int|
            0 <= k < self.index().len() ==> ((#[trigger] self.index()[k].0) < self.next_id || (
            self.index()[k].0 == i64::MAX && self.next_id == i64::MAX))
    }

    /// Whether the store can still assign a fresh id.
    pub fn has_capacity(&self) -> (r: bool)
        ensures
            r == (self.next_id() < i64::MAX),
    {
        self.next_id < i64::MAX
    }

    /// Whether inserts are kept away from disk.
    pub fn is_dry_run(&self) -> (r: bool)
        ensures
            r == self.is_dry(),
    {
        self.dry_run
    }

    /// Switches the store to in-memory-only operation: from here on an
    /// insert changes what `read` returns but asks for no file write.
    pub fn dry_run(&mut self)
        ensures
            final(self).is_dry(),
            final(self).root() == old(self).root(),
            final(self).index() == old(self).index(),
            final(self).next_id() == old(self).next_id(),
            old(self).wf() ==> final(self).wf(),
    {
        self.dry_run = true;
    }

    /// The serialized text of the whole current table.
    pub fn read(&self) -> (r: String)
        ensures
            r@ == spec_stringify(self.root()),
    {
        self.json.stringify()
    }

    /// The cached serialized text of the record indexed under `id`, or
    /// `NotFound` where no record carries it.
    pub fn get(&self, id: i64) -> (r: Result<String, DbQueryError>)
        ensures
            match idx_get(self.index(), id) {
                Option::Some(text) => r matches Ok(s) && s@ == text,
                Option::None => r matches Err(e) && e matches DbQueryError::NotFound(missing)
                    && missing == id,
            },
    {
        let mut k: usize = 0;
        while k < self.mapped.len()
            invariant
                0 <= k <= self.mapped@.len(),
                forall|j: int| 0 <= j < k ==> (#[trigger] self.mapped@[j]).0 != id,
            decreases self.mapped@.len() - k,
        {
            if self.mapped[k].0 == id {
                proof {
                    lemma_idx_get_at(self.index(), id, k as int);
                }
                return Result::Ok(self.mapped[k].1.clone());
            }
            k = k + 1;
        }
        proof {
            lemma_idx_get_none(self.index(), id);
        }
        Result::Err(DbQueryError::NotFound(id))
    }
}

/// `idx_insert` replaces in place at the first matching id.
proof fn lemma_idx_insert_at(idx: Seq<(i64, Seq<char>)>, id: i64, text: Seq<char>, j: int)
    requires
        0 <= j < idx.len(),
        idx[j].0 == id,
        forall|k: int| 0 <= k < j ==> (#[trigger] idx[k]).0 != id,
    ensures
        idx_insert(idx, id, text) == idx.update(j, (id, text)),
    decreases j,
{
    if j == 0 {
        assert(idx_insert(idx, id, text) =~= idx.update(0, (id, text)));
    } else {
        assert forall|k: int| 0 <= k < j - 1 implies (#[trigger] idx.drop_first()[k]).0 != id by {
            assert(idx.drop_first()[k] == idx[k + 1]);
        }
        assert(idx.drop_first()[j - 1] == idx[j]);
        assert(idx[0].0 != id);
        lemma_idx_insert_at(idx.drop_first(), id, text, j - 1);
        assert(idx_insert(idx, id, text) =~= idx.update(j, (id, text)));
    }
}

/// Inserts with map semantics into an index vector: the first entry with
/// the same id is replaced, a new id is appended.
fn idx_upsert(mapped: &mut Vec<(i64, String)>, id: i64, text: String)
    ensures
        idx_model(final(mapped)@) == idx_insert(idx_model(old(mapped)@), id, text@),
{
    let ghost before = mapped@;
    let mut j: usize = 0;
    while j < mapped.len()
        invariant
            0 <= j <= mapped@.len(),
            mapped@ == before,
            before == old(mapped)@,
            forall|k: int| 0 <= k < j ==> (#[trigger] before[k]).0 != id,
        decreases mapped@.len() - j,
    {
        if mapped[j].0 == id {
            proof {
                assert forall|k: int| 0 <= k < j implies (#[trigger] idx_model(before)[k]).0
                    != id by {
                    assert(idx_model(before)[k] == (before[k].0, before[k].1@));
                }
                assert(idx_model(before)[j as int].0 == id);
                lemma_idx_insert_at(idx_model(before), id, text@, j as int);
            }
            mapped[j] = (id, text);
            proof {
                assert forall|k: int| 0 <= k < mapped@.len() implies idx_model(mapped@)[k]
                    == idx_model(before).update(j as int, (id, text@))[k] by {
                    if k != j {
                        assert(mapped@[k] == before[k]);
                    } else {
                        assert(mapped@[k] == (id, text));
                    }
                }
                assert(idx_model(mapped@) =~= idx_model(before).update(j as int, (id, text@)));
            }
            return;
        }
        j = j + 1;
    }
    proof {
        assert forall|k: int| 0 <= k < before.len() implies (#[trigger] idx_model(before)[k]).0
            != id by {
            assert(idx_model(before)[k] == (before[k].0, before[k].1@));
        }
        lemma_idx_insert_none(idx_model(before), id, text@);
    }
    mapped.push((id, text));
    proof {
        assert forall|k: int| 0 <= k < mapped@.len() implies idx_model(mapped@)[k] == idx_model(
            before,
        ).push((id, text@))[k] by {
            if k < before.len() {
                assert(mapped@[k] == before[k]);
            } else {
                assert(mapped@[k] == (id, text));
            }
        }
        assert(idx_model(mapped@) =~= idx_model(before).push((id, text@)));
    }
}

impl Connection {
    /// Opens a store over an already parsed root value. The root must be
    /// an array; each element that is an object with an integer `id`
    /// member is indexed under that id, in order, mapped to its own
    /// serialized text. Other elements stay in the table but out of the
    /// index. The id counter starts one past the largest indexed id.
    pub fn new(json: JsonField) -> (r: Result<Connection, DbQueryError>)
        ensures
            r is Ok <==> json.model() is Array,
            json.model() matches SpecField::Array(elems) ==> r matches Ok(c) && c.wf() && c.root()
                == json.model() && c.index() == load_index(elems) && c.next_id() == seed_next_id(
                load_index(elems),
            ) && !c.is_dry(),
            !(json.model() is Array) ==> ({
                &&& r matches Err(e) && e matches DbQueryError::TypeMismatch(t) && t == (
                TypeMismatch { expected: JsonFieldType::Array, actual: json.model().tag() })
            }),
    {
        let mut mapped: Vec<(i64, String)> = Vec::new();
        match &json {
            JsonField::Array(elems) => {
                let ghost ms = crate::json::field::model_elems(elems@);
                proof {
                    crate::json::field::lemma_model_elems(elems@);
                    assert(ms.take(0) =~= Seq::<SpecField>::empty());
                }
                let id_key = String::from_str("id");
                proof {
                    reveal_strlit("id");
                    assert(id_key@ =~= seq!['i', 'd']);
                }
                let mut i: usize = 0;
                while i < elems.len()
                    invariant
                        0 <= i <= elems@.len(),
                        ms == crate::json::field::model_elems(elems@),
                        ms.len() == elems@.len(),
                        forall|k: int|
                            0 <= k < elems@.len() ==> ms[k] == #[trigger] elems@[k].model(),
                        id_key@ == seq!['i', 'd'],
                        idx_model(mapped@) == load_index(ms.take(i as int)),
                    decreases elems@.len() - i,
                {
                    let ghost prefix = ms.take(i as int);
                    proof {
                        assert(ms.take(i + 1).drop_last() =~= prefix);
                        assert(ms.take(i + 1).last() == ms[i as int]);
                    }
                    match &elems[i] {
                        JsonField::Object(members) => {
                            proof {
                                crate::json::field::lemma_model_members(members@);
                            }
                            match crate::json::field::obj_find(members, &id_key) {
                                Option::Some(j) => {
                                    proof {
                                        assert forall|k: int|
                                            0 <= k < j implies #[trigger] crate::json::field::model_members(
                                            members@,
                                        )[k].0 != seq!['i', 'd'] by {
                                            assert(members@[k].0@ != id_key@);
                                        }
                                        assert(crate::json::field::model_members(
                                            members@,
                                        )[j as int].0 == seq!['i', 'd']);
                                        crate::json::field::lemma_sobj_get_at(
                                            crate::json::field::model_members(members@),
                                            seq!['i', 'd'],
                                            j as int,
                                        );
                                    }
                                    match &members[j].1 {
                                        JsonField::Int(idv) => {
                                            let text = elems[i].stringify();
                                            idx_upsert(&mut mapped, *idv, text);
                                            proof {
                                                assert(ms[i as int] == SpecField::Object(
                                                    crate::json::field::model_members(members@),
                                                ));
                                                assert(record_id(ms[i as int])
                                                    == Option::Some(*idv));
                                                assert(idx_model(mapped@) == load_index(
                                                    ms.take(i + 1),
                                                ));
                                            }
                                        }
                                        _ => {
                                            proof {
                                                assert(!(members@[j as int].1 is Int));
                                                assert(crate::json::field::model_members(
                                                    members@,
                                                )[j as int] == (
                                                    members@[j as int].0@,
                                                    members@[j as int].1.model(),
                                                ));
                                                assert(!(crate::json::field::model_members(
                                                    members@,
                                                )[j as int].1 is Int));
                                                assert(ms[i as int] == elems@[
                                                    i as int
                                                ].model());
                                                assert(ms[i as int] == SpecField::Object(
                                                    crate::json::field::model_members(members@),
                                                ));
                                                assert(record_id(ms[i as int]) is None);
                                                assert(idx_model(mapped@) == load_index(
                                                    ms.take(i + 1),
                                                ));
                                            }
                                        }
                                    }
                                }
                                Option::None => {
                                    proof {
                                        assert forall|k: int|
                                            0 <= k < members@.len() implies #[trigger] crate::json::field::model_members(
                                            members@,
                                        )[k].0 != seq!['i', 'd'] by {
                                            assert(members@[k].0@ != id_key@);
                                        }
                                        crate::json::field::lemma_sobj_get_none(
                                            crate::json::field::model_members(members@),
                                            seq!['i', 'd'],
                                        );
                                        assert(ms[i as int] == elems@[i as int].model());
                                        assert(ms[i as int] == SpecField::Object(
                                            crate::json::field::model_members(members@),
                                        ));
                                        assert(record_id(ms[i as int]) is None);
                                        assert(idx_model(mapped@) == load_index(ms.take(i + 1)));
                                    }
                                }
                            }
                        }
                        _ => {
                            proof {
                                assert(!(elems@[i as int] is Object));
                                assert(!(ms[i as int] is Object));
                                assert(record_id(ms[i as int]) is None);
                                assert(idx_model(mapped@) == load_index(ms.take(i + 1)));
                            }
                        }
                    }
                    i = i + 1;
                }
                proof {
                    assert(ms.take(ms.len() as int) =~= ms);
                }
            }
            _ => {
                return Result::Err(
                    DbQueryError::TypeMismatch(
                        TypeMismatch {
                            expected: JsonFieldType::Array,
                            actual: json.field_type(),
                        },
                    ),
                );
            }
        }
        let mut m: i64 = 0;
        let ghost idx = idx_model(mapped@);
        proof {
            assert(idx.take(0) =~= Seq::<(i64, Seq<char>)>::empty());
        }
        let mut k: usize = 0;
        while k < mapped.len()
            invariant
                0 <= k <= mapped@.len(),
                idx == idx_model(mapped@),
                idx.len() == mapped@.len(),
                m as int == max_id(idx.take(k as int)),
                m >= 0,
            decreases mapped@.len() - k,
        {
            proof {
                assert(idx.take(k + 1).drop_last() =~= idx.take(k as int));
                assert(idx.take(k + 1).last() == idx[k as int]);
                assert(idx[k as int] == (mapped@[k as int].0, mapped@[k as int].1@));
            }
            if mapped[k].0 > m {
                m = mapped[k].0;
            }
            k = k + 1;
        }
        proof {
            assert(idx.take(idx.len() as int) =~= idx);
            lemma_max_id_bounds(idx);
        }
        let next_id: i64 = if m < i64::MAX {
            m + 1
        } else {
            m
        };
        Result::Ok(Connection { json, dry_run: false, mapped, next_id })
    }

    /// Appends a record to the table: the record must be an object; it
    /// is stamped with a fresh id no existing record is indexed under,
    /// appended to the root array, indexed under the new id, and its
    /// serialized text returned. The in-memory state commits here
    /// whatever later happens on disk; a store whose id space is
    /// exhausted must not be asked.
    pub fn insert(&mut self, field: JsonField) -> (r: Result<String, DbQueryError>)
        requires
            old(self).wf(),
            old(self).next_id() < i64::MAX,
        ensures
            r is Ok <==> field.model() is Object,
            field.model() matches SpecField::Object(ms) ==> ({
                let new_id = old(self).next_id() as i64;
                let stamped = SpecField::Object(
                    sobj_insert(ms, seq!['i', 'd'], SpecField::Int(new_id)),
                );
                &&& r matches Ok(text) && text@ == spec_stringify(stamped)
                &&& final(self).root() == SpecField::Array(
                    old(self).root()->Array_0.push(stamped),
                )
                &&& final(self).index() == idx_insert(
                    old(self).index(),
                    new_id,
                    spec_stringify(stamped),
                )
                &&& idx_get(old(self).index(), new_id) is None
                &&& idx_get(final(self).index(), new_id) == Option::Some(spec_stringify(stamped))
                &&& final(self).next_id() == old(self).next_id() + 1
                &&& final(self).is_dry() == old(self).is_dry()
                &&& final(self).wf()
            }),
            !(field.model() is Object) ==> ({
                &&& *final(self) == *old(self)
                &&& r matches Err(e) && e matches DbQueryError::TypeMismatch(t) && t == (
                TypeMismatch { expected: JsonFieldType::Object, actual: field.model().tag() })
            }),
    {
        let mut record = field;
        let new_id: i64 = self.next_id;
        let id_key = String::from_str("id");
        proof {
            reveal_strlit("id");
            assert(id_key@ =~= seq!['i', 'd']);
        }
        match record.insert(id_key.as_str(), JsonField::Int(new_id)) {
            Result::Ok(()) => {}
            Result::Err(mismatch) => {
                return Result::Err(DbQueryError::TypeMismatch(mismatch));
            }
        }
        let text = record.stringify();
        match self.json.push(record) {
            Result::Ok(()) => {}
            Result::Err(mismatch) => {
                proof {
                    // A well-formed store's root is an array, so the
                    // push cannot be refused.
                    assert(false);
                }
                return Result::Err(DbQueryError::TypeMismatch(mismatch));
            }
        }
        proof {
            assert forall|k: int| 0 <= k < old(self).index().len() implies (
            #[trigger] old(self).index()[k]).0 != new_id by {}
            lemma_idx_get_none(old(self).index(), new_id);
            lemma_idx_insert_none(old(self).index(), new_id, text@);
            lemma_idx_insert_get(old(self).index(), new_id, text@, new_id);
        }
        let ghost before = self.mapped@;
        let out = text.clone();
        self.mapped.push((new_id, text));
        proof {
            assert forall|k: int| 0 <= k < self.mapped@.len() implies idx_model(
                self.mapped@,
            )[k] == idx_model(before).push((new_id, text@))[k] by {
                if k < before.len() {
                    assert(self.mapped@[k] == before[k]);
                } else {
                    assert(self.mapped@[k] == (new_id, text));
                }
            }
            assert(idx_model(self.mapped@) =~= idx_model(before).push((new_id, text@)));
        }
        self.next_id = self.next_id + 1;
        Result::Ok(out)
    }
}

/// The index after a run of inserts whose assigned ids count up from
/// `n0`, each insert indexing its own serialized text, exactly as
/// `insert` performs them one after the other.
pub open spec fn idx_insert_run(
    idx: Seq<(i64, Seq<char>)>,
    n0: int,
    texts: Seq<Seq<char>>,
) -> Seq<(i64, Seq<char>)>
    decreases texts.len(),
{
    if texts.len() == 0 {
        idx
    } else {
        idx_insert(
            idx_insert_run(idx, n0, texts.drop_last()),
            (n0 + texts.len() - 1) as i64,
            texts.last(),
        )
    }
}

/// However many inserts run against one store, they serialize: each
/// one observes its own id, and afterwards every inserted record is
/// still reachable under the id it was assigned. No update is lost,
/// and two distinct inserts never share an id.
pub proof fn lemma_insert_run_no_lost_update(
    idx: Seq<(i64, Seq<char>)>,
    n0: int,
    texts: Seq<Seq<char>>,
    j: int,
)
    requires
        1 <= n0,
        n0 + texts.len() <= i64::MAX,
        0 <= j < texts.len(),
    ensures
        idx_get(idx_insert_run(idx, n0, texts), (n0 + j) as i64) == Option::Some(texts[j]),
    decreases texts.len(),
{
    let last_id = (n0 + texts.len() - 1) as i64;
    if j == texts.len() - 1 {
        lemma_idx_insert_get(idx_insert_run(idx, n0, texts.drop_last()), last_id, texts.last(), last_id);
    } else {
        lemma_insert_run_no_lost_update(idx, n0, texts.drop_last(), j);
        assert(texts.drop_last()[j] == texts[j]);
        assert((n0 + j) as i64 != last_id);
        lemma_idx_insert_get(
            idx_insert_run(idx, n0, texts.drop_last()),
            last_id,
            texts.last(),
            (n0 + j) as i64,
        );
    }
}

/// Every indexed id lies at or below the index's largest.
proof fn lemma_max_id_bounds(idx: Seq<(i64, Seq<char>)>)
    ensures
        max_id(idx) >= 0,
        forall|k: int| 0 <= k < idx.len() ==> (#[trigger] idx[k]).0 <= max_id(idx),
    decreases idx.len(),
{
    if idx.len() > 0 {
        lemma_max_id_bounds(idx.drop_last());
        assert forall|k: int| 0 <= k < idx.len() implies (#[trigger] idx[k]).0 <= max_id(idx) by {
            if k < idx.len() - 1 {
                assert(idx.drop_last()[k] == idx[k]);
            }
        }
    }
}

/// `idx_get` answers by the first entry whose id matches.
proof fn lemma_idx_get_at(idx: Seq<(i64, Seq<char>)>, id: i64, j: int)
    requires
        0 <= j < idx.len(),
        idx[j].0 == id,
        forall|k: int| 0 <= k < j ==> (#[trigger] idx[k]).0 != id,
    ensures
        idx_get(idx, id) == Option::Some(idx[j].1),
    decreases j,
{
    if j > 0 {
        assert(idx[0].0 != id);
        assert forall|k: int| 0 <= k < j - 1 implies (#[trigger] idx.drop_first()[k]).0 != id by {
            assert(idx.drop_first()[k] == idx[k + 1]);
        }
        assert(idx.drop_first()[j - 1] == idx[j]);
        lemma_idx_get_at(idx.drop_first(), id, j - 1);
    }
}

/// `idx_get` finds nothing when no entry's id matches.
proof fn lemma_idx_get_none(idx: Seq<(i64, Seq<char>)>, id: i64)
    requires
        forall|k: int| 0 <= k < idx.len() ==> (#[trigger] idx[k]).0 != id,
    ensures
        idx_get(idx, id) is None,
    decreases idx.len(),
{
    if idx.len() > 0 {
        assert forall|k: int| 0 <= k < idx.len() - 1 implies (#[trigger] idx.drop_first()[k]).0
            != id by {
            assert(idx.drop_first()[k] == idx[k + 1]);
        }
        lemma_idx_get_none(idx.drop_first(), id);
    }
}

/// `idx_insert` appends when no entry's id matches.
proof fn lemma_idx_insert_none(idx: Seq<(i64, Seq<char>)>, id: i64, text: Seq<char>)
    requires
        forall|k: int| 0 <= k < idx.len() ==> (#[trigger] idx[k]).0 != id,
    ensures
        idx_insert(idx, id, text) == idx.push((id, text)),
    decreases idx.len(),
{
    if idx.len() == 0 {
        assert(idx_insert(idx, id, text) =~= idx.push((id, text)));
    } else {
        assert forall|k: int| 0 <= k < idx.len() - 1 implies (#[trigger] idx.drop_first()[k]).0
            != id by {
            assert(idx.drop_first()[k] == idx[k + 1]);
        }
        lemma_idx_insert_none(idx.drop_first(), id, text);
        assert(idx_insert(idx, id, text) =~= idx.push((id, text)));
    }
}

} // verus!
