use vstd::prelude::*;

verus! {

/// The tag of a JSON value variant.
#[derive(Clone, Copy, Debug, PartialEq, Eq, Structural)]
pub enum JsonFieldType {
    Int,
    Float,
    String,
    Boolean,
    Object,
    Array,
    Null,
}

/// A decimal literal: the textual form of a JSON number with a fractional
/// part, kept exactly as parsed (sign, whole part, fraction digits 0..=9).
#[derive(Debug)]
pub struct Decimal {
    pub neg: bool,
    pub whole: u64,
    pub frac: Vec<u8>,
}

/// A JSON value. Containers are plain owned vectors; an object keeps its
/// members in insertion order and never holds the same key twice when it is
/// built through `insert` or by the parser.
#[derive(Debug)]
pub enum JsonField {
    Int(i64),
    Float(Decimal),
    String(String),
    Boolean(bool),
    Object(Vec<(String, JsonField)>),
    Array(Vec<JsonField>),
    Null,
}

/// The reason a parse failed; every error fails the whole parse and no
/// partial tree is returned.
#[derive(Clone, Copy, Debug, PartialEq, Eq, Structural)]
pub enum ParseJsonError {
    UnmatchedClosingBrace,
    UnmatchedClosingBracket,
    UnterminatedString,
    EmptyObjectKey,
    NonStringObjectKey,
    DuplicateDecimalPoint,
    UnrecognizedIdentifier,
    NumberOutOfRange,
    UnexpectedCharacter(char),
    UnexpectedEndOfInput,
}

/// What a parse returns: the value and the index of the last character it
/// consumed, or the error that stopped it.
pub type ParseJsonResult = Result<(JsonField, usize), ParseJsonError>;

/// The mathematical model of a JSON value.
#[verifier::ext_equal]
pub enum SpecField {
    Int(i64),
    Float(bool, u64, Seq<u8>),
    String(Seq<char>),
    Boolean(bool),
    Object(Seq<(Seq<char>, SpecField)>),
    Array(Seq<SpecField>),
    Null,
}

/// The model of a sequence of array elements.
pub open spec fn model_elems(elems: Seq<JsonField>) -> Seq<SpecField>
    decreases elems,
{
    if elems.len() == 0 {
        Seq::empty()
    } else {
        seq![elems[0].model()] + model_elems(elems.drop_first())
    }
}

/// The model of a sequence of object members.
pub open spec fn model_members(members: Seq<(String, JsonField)>) -> Seq<(Seq<char>, SpecField)>
    decreases members,
{
    if members.len() == 0 {
        Seq::empty()
    } else {
        seq![(members[0].0@, members[0].1.model())] + model_members(members.drop_first())
    }
}

impl JsonField {
    /// The model of this value: containers become sequences, strings
    /// become character sequences.
    pub open spec fn model(self) -> SpecField
        decreases self via Self::model_decreases
    {
        match self {
            JsonField::Int(i) => SpecField::Int(i),
            JsonField::Float(d) => SpecField::Float(d.neg, d.whole, d.frac@),
            JsonField::String(s) => SpecField::String(s@),
            JsonField::Boolean(b) => SpecField::Boolean(b),
            JsonField::Object(members) => SpecField::Object(model_members(members@)),
            JsonField::Array(elems) => SpecField::Array(model_elems(elems@)),
            JsonField::Null => SpecField::Null,
        }
    }

    #[via_fn]
    proof fn model_decreases(self) {
        broadcast use vstd::std_specs::vec::group_vec_axioms;

        match self {
            JsonField::Object(members) => {
                assert(decreases_to!(self => members));
                assert(decreases_to!(members => members@));
            }
            JsonField::Array(elems) => {
                assert(decreases_to!(self => elems));
                assert(decreases_to!(elems => elems@));
            }
            _ => {}
        }
    }
}

/// The length of `model_elems` is the length of the element sequence, and
/// each model sits at the index of the value it models.
pub proof fn lemma_model_elems(elems: Seq<JsonField>)
    ensures
        model_elems(elems).len() == elems.len(),
        forall|i: int| 0 <= i < elems.len() ==> model_elems(elems)[i] == #[trigger] elems[i].model(),
    decreases elems.len(),
{
    if elems.len() > 0 {
        lemma_model_elems(elems.drop_first());
        assert forall|i: int| 0 <= i < elems.len() implies model_elems(elems)[i]
            == #[trigger] elems[i].model() by {
            if i > 0 {
                assert(elems.drop_first()[i - 1] == elems[i]);
                assert(model_elems(elems)[i] == model_elems(elems.drop_first())[i - 1]);
            }
        }
    }
}

/// The length of `model_members` is the length of the member sequence, and
/// each member's model sits at its own index.
pub proof fn lemma_model_members(members: Seq<(String, JsonField)>)
    ensures
        model_members(members).len() == members.len(),
        forall|i: int| 0 <= i < members.len() ==> model_members(members)[i] == (
        #[trigger] members[i].0@,
        members[i].1.model(),
        ),
    decreases members.len(),
{
    if members.len() > 0 {
        lemma_model_members(members.drop_first());
        assert forall|i: int| 0 <= i < members.len() implies model_members(members)[i] == (
        #[trigger] members[i].0@,
        members[i].1.model(),
        ) by {
            if i > 0 {
                assert(members.drop_first()[i - 1] == members[i]);
                assert(model_members(members)[i] == model_members(members.drop_first())[i - 1]);
            }
        }
    }
}

/// The first value bound to `key` in a member sequence, if any.
pub open spec fn sobj_get(members: Seq<(Seq<char>, SpecField)>, key: Seq<char>) -> Option<
    SpecField,
>
    decreases members,
{
    if members.len() == 0 {
        Option::None
    } else if members[0].0 == key {
        Option::Some(members[0].1)
    } else {
        sobj_get(members.drop_first(), key)
    }
}

/// Member insertion with map semantics: the first member with the same key
/// is replaced in place; a new key is appended at the end.
pub open spec fn sobj_insert(
    members: Seq<(Seq<char>, SpecField)>,
    key: Seq<char>,
    value: SpecField,
) -> Seq<(Seq<char>, SpecField)>
    decreases members,
{
    if members.len() == 0 {
        seq![(key, value)]
    } else if members[0].0 == key {
        seq![(key, value)] + members.drop_first()
    } else {
        seq![members[0]] + sobj_insert(members.drop_first(), key, value)
    }
}

/// Structural equality on models: scalars by value, arrays pointwise in
/// order, objects by key set and per-key value, whatever the member order.
pub open spec fn equiv(a: SpecField, b: SpecField) -> bool
    decreases a,
{
    match (a, b) {
        (SpecField::Int(x), SpecField::Int(y)) => x == y,
        (SpecField::Float(nx, wx, fx), SpecField::Float(ny, wy, fy)) => nx == ny && wx == wy && fx
            == fy,
        (SpecField::String(x), SpecField::String(y)) => x == y,
        (SpecField::Boolean(x), SpecField::Boolean(y)) => x == y,
        (SpecField::Null, SpecField::Null) => true,
        (SpecField::Array(x), SpecField::Array(y)) => x.len() == y.len() && equiv_elems(x, y),
        (SpecField::Object(x), SpecField::Object(y)) => x.len() == y.len() && members_included(
            x,
            y,
        ) && keys_included(y, x),
        _ => false,
    }
}

/// Pointwise structural equality of two element sequences of equal length.
pub open spec fn equiv_elems(x: Seq<SpecField>, y: Seq<SpecField>) -> bool
    decreases x,
{
    if x.len() == 0 || y.len() == 0 {
        x.len() == 0 && y.len() == 0
    } else {
        equiv(x[0], y[0]) && equiv_elems(x.drop_first(), y.drop_first())
    }
}

/// Every member of `part` has a structurally equal value under its key in
/// `whole`.
pub open spec fn members_included(
    part: Seq<(Seq<char>, SpecField)>,
    whole: Seq<(Seq<char>, SpecField)>,
) -> bool
    decreases part,
{
    if part.len() == 0 {
        true
    } else {
        (match sobj_get(whole, part[0].0) {
            Option::Some(w) => equiv(part[0].1, w),
            Option::None => false,
        }) && members_included(part.drop_first(), whole)
    }
}

/// Every key of `part` occurs in `whole`.
pub open spec fn keys_included(
    part: Seq<(Seq<char>, SpecField)>,
    whole: Seq<(Seq<char>, SpecField)>,
) -> bool
    decreases part,
{
    if part.len() == 0 {
        true
    } else {
        sobj_get(whole, part[0].0) is Some && keys_included(part.drop_first(), whole)
    }
}

impl SpecField {
    /// The variant tag of a model value.
    pub open spec fn tag(self) -> JsonFieldType {
        match self {
            SpecField::Int(_) => JsonFieldType::Int,
            SpecField::Float(_, _, _) => JsonFieldType::Float,
            SpecField::String(_) => JsonFieldType::String,
            SpecField::Boolean(_) => JsonFieldType::Boolean,
            SpecField::Object(_) => JsonFieldType::Object,
            SpecField::Array(_) => JsonFieldType::Array,
            SpecField::Null => JsonFieldType::Null,
        }
    }
}

/// The error of a value-model operation applied to the wrong variant,
/// naming the expected and the actual tag.
#[derive(Clone, Copy, Debug, PartialEq, Eq, Structural)]
pub struct TypeMismatch {
    pub expected: JsonFieldType,
    pub actual: JsonFieldType,
}

impl JsonField {
    /// Whether this value has the given variant tag.
    pub fn is(&self, field_type: JsonFieldType) -> (r: bool)
        ensures
            r == (self.model().tag() == field_type),
    {
        self.field_type() == field_type
    }

    /// The variant tag of this value.
    pub fn field_type(&self) -> (r: JsonFieldType)
        ensures
            r == self.model().tag(),
    {
        match self {
            JsonField::Int(_) => JsonFieldType::Int,
            JsonField::Float(_) => JsonFieldType::Float,
            JsonField::Boolean(_) => JsonFieldType::Boolean,
            JsonField::String(_) => JsonFieldType::String,
            JsonField::Array(_) => JsonFieldType::Array,
            JsonField::Object(_) => JsonFieldType::Object,
            JsonField::Null => JsonFieldType::Null,
        }
    }

    /// Views this value as an array, or reports the mismatched tag.
    pub fn unwrap_as_ref_array(&self) -> (r: Result<&Vec<JsonField>, TypeMismatch>)
        ensures
            r is Ok <==> self is Array,
            self matches JsonField::Array(elems) ==> r matches Ok(v) && v == elems,
            r matches Err(e) ==> e == (TypeMismatch {
                expected: JsonFieldType::Array,
                actual: self.model().tag(),
            }),
    {
        match self {
            JsonField::Array(elems) => Ok(elems),
            _ => Err(TypeMismatch { expected: JsonFieldType::Array, actual: self.field_type() }),
        }
    }

    /// Views this value as an object, or reports the mismatched tag.
    pub fn unwrap_as_ref_object(&self) -> (r: Result<&Vec<(String, JsonField)>, TypeMismatch>)
        ensures
            r is Ok <==> self is Object,
            self matches JsonField::Object(members) ==> r matches Ok(v) && v == members,
            r matches Err(e) ==> e == (TypeMismatch {
                expected: JsonFieldType::Object,
                actual: self.model().tag(),
            }),
    {
        match self {
            JsonField::Object(members) => Ok(members),
            _ => Err(TypeMismatch { expected: JsonFieldType::Object, actual: self.field_type() }),
        }
    }

    /// Views this value as an integer, or reports the mismatched tag.
    pub fn unwrap_as_ref_int(&self) -> (r: Result<&i64, TypeMismatch>)
        ensures
            r is Ok <==> self is Int,
            self matches JsonField::Int(i) ==> r matches Ok(v) && v == i,
            r matches Err(e) ==> e == (TypeMismatch {
                expected: JsonFieldType::Int,
                actual: self.model().tag(),
            }),
    {
        match self {
            JsonField::Int(i) => Ok(i),
            _ => Err(TypeMismatch { expected: JsonFieldType::Int, actual: self.field_type() }),
        }
    }

    /// An empty object.
    pub fn new_json_obj() -> (r: JsonField)
        ensures
            r.model() == SpecField::Object(Seq::<(Seq<char>, SpecField)>::empty()),
    {
        JsonField::Object(Vec::new())
    }

    /// An empty array.
    pub fn new_json_arr() -> (r: JsonField)
        ensures
            r.model() == SpecField::Array(Seq::<SpecField>::empty()),
    {
        JsonField::Array(Vec::new())
    }

    /// Whether this value is `Null`.
    pub fn is_null(&self) -> (r: bool)
        ensures
            r == (self.model() == SpecField::Null),
    {
        match self {
            JsonField::Null => true,
            _ => false,
        }
    }

    /// Adds `key: value` to an object, replacing the first member that
    /// already carries `key`; any other variant is left unchanged and
    /// reported as a mismatch.
    pub fn insert(&mut self, key: &str, value: JsonField) -> (r: Result<(), TypeMismatch>)
        ensures
            r is Ok <==> *old(self) is Object,
            old(self).model() matches SpecField::Object(m) ==> final(self).model()
                == SpecField::Object(sobj_insert(m, key@, value.model())),
            !(*old(self) is Object) ==> *final(self) == *old(self) && r == Err::<(), TypeMismatch>(
                TypeMismatch { expected: JsonFieldType::Object, actual: old(self).model().tag() },
            ),
    {
        match self {
            JsonField::Object(members) => {
                obj_insert_exec(members, key, value);
                Ok(())
            }
            _ => Err(TypeMismatch { expected: JsonFieldType::Object, actual: self.field_type() }),
        }
    }

    /// Appends a value to an array; any other variant is left unchanged
    /// and reported as a mismatch.
    pub fn push(&mut self, value: JsonField) -> (r: Result<(), TypeMismatch>)
        ensures
            r is Ok <==> *old(self) is Array,
            old(self).model() matches SpecField::Array(elems) ==> final(self).model()
                == SpecField::Array(elems.push(value.model())),
            !(*old(self) is Array) ==> *final(self) == *old(self) && r == Err::<(), TypeMismatch>(
                TypeMismatch { expected: JsonFieldType::Array, actual: old(self).model().tag() },
            ),
    {
        match self {
            JsonField::Array(elems) => {
                proof {
                    lemma_model_elems_push(elems@, value);
                }
                elems.push(value);
                Ok(())
            }
            _ => Err(TypeMismatch { expected: JsonFieldType::Array, actual: self.field_type() }),
        }
    }
}

/// Appending an element appends its model.
pub proof fn lemma_model_elems_push(elems: Seq<JsonField>, value: JsonField)
    ensures
        model_elems(elems.push(value)) == model_elems(elems).push(value.model()),
{
    lemma_model_elems(elems);
    lemma_model_elems(elems.push(value));
    let snoc = elems.push(value);
    assert forall|i: int| 0 <= i < snoc.len() implies model_elems(snoc)[i] == model_elems(
        elems,
    ).push(value.model())[i] by {
        if i < elems.len() {
            assert(snoc[i] == elems[i]);
            assert(model_elems(snoc)[i] == snoc[i].model());
        } else {
            assert(snoc[i] == value);
            assert(model_elems(snoc)[i] == snoc[i].model());
        }
    }
    assert(model_elems(elems.push(value)) =~= model_elems(elems).push(value.model()));
}

/// The first member of `members` whose key reads as `key`, if any.
pub(crate) fn obj_find(members: &Vec<(String, JsonField)>, key: &String) -> (r: Option<usize>)
    ensures
        match r {
            Option::Some(j) => 0 <= j < members@.len() && members@[j as int].0@ == key@ && forall|
                i: int,
            | 0 <= i < j ==> members@[i].0@ != key@,
            Option::None => forall|i: int| 0 <= i < members@.len() ==> members@[i].0@ != key@,
        },
{
    let mut j: usize = 0;
    while j < members.len()
        invariant
            0 <= j <= members@.len(),
            forall|i: int| 0 <= i < j ==> members@[i].0@ != key@,
        decreases members@.len() - j,
    {
        if members[j].0.eq(key) {
            return Option::Some(j);
        }
        j = j + 1;
    }
    Option::None
}

/// `sobj_get` answers by the first member whose key matches.
pub proof fn lemma_sobj_get_at(members: Seq<(Seq<char>, SpecField)>, key: Seq<char>, j: int)
    requires
        0 <= j < members.len(),
        members[j].0 == key,
        forall|i: int| 0 <= i < j ==> members[i].0 != key,
    ensures
        sobj_get(members, key) == Option::Some(members[j].1),
    decreases j,
{
    if j > 0 {
        lemma_sobj_get_at(members.drop_first(), key, j - 1);
    }
}

/// `sobj_get` finds nothing when no member's key matches.
pub proof fn lemma_sobj_get_none(members: Seq<(Seq<char>, SpecField)>, key: Seq<char>)
    requires
        forall|i: int| 0 <= i < members.len() ==> members[i].0 != key,
    ensures
        sobj_get(members, key) is None,
    decreases members.len(),
{
    if members.len() > 0 {
        lemma_sobj_get_none(members.drop_first(), key);
    }
}

/// `sobj_insert` replaces in place at the first matching key.
proof fn lemma_sobj_insert_at(
    members: Seq<(Seq<char>, SpecField)>,
    key: Seq<char>,
    value: SpecField,
    j: int,
)
    requires
        0 <= j < members.len(),
        members[j].0 == key,
        forall|i: int| 0 <= i < j ==> members[i].0 != key,
    ensures
        sobj_insert(members, key, value) == members.update(j, (key, value)),
    decreases j,
{
    if j == 0 {
        assert(sobj_insert(members, key, value) =~= members.update(0, (key, value)));
    } else {
        lemma_sobj_insert_at(members.drop_first(), key, value, j - 1);
        assert(sobj_insert(members, key, value) =~= members.update(j, (key, value)));
    }
}

/// `sobj_insert` appends when no member's key matches.
pub proof fn lemma_sobj_insert_none(
    members: Seq<(Seq<char>, SpecField)>,
    key: Seq<char>,
    value: SpecField,
)
    requires
        forall|i: int| 0 <= i < members.len() ==> members[i].0 != key,
    ensures
        sobj_insert(members, key, value) == members.push((key, value)),
    decreases members.len(),
{
    if members.len() == 0 {
        assert(sobj_insert(members, key, value) =~= members.push((key, value)));
    } else {
        lemma_sobj_insert_none(members.drop_first(), key, value);
        assert(sobj_insert(members, key, value) =~= members.push((key, value)));
    }
}

/// Inserts with map semantics into a member vector: the first member with
/// the same key is replaced, a new key is appended.
pub(crate) fn obj_insert_exec(members: &mut Vec<(String, JsonField)>, key: &str, value: JsonField)
    ensures
        model_members(final(members)@) == sobj_insert(
            model_members(old(members)@),
            key@,
            value.model(),
        ),
{
    let key_string = String::from_str(key);
    let found = obj_find(members, &key_string);
    proof {
        lemma_model_members(members@);
    }
    let ghost before = members@;
    match found {
        Option::Some(j) => {
            proof {
                assert forall|i: int| 0 <= i < j implies #[trigger] model_members(before)[i].0
                    != key@ by {
                    assert(before[i].0@ != key@);
                }
                assert(model_members(before)[j as int].0 == key@);
                lemma_sobj_insert_at(model_members(before), key@, value.model(), j as int);
            }
            members[j] = (key_string, value);
            proof {
                lemma_model_members(members@);
                assert forall|i: int| 0 <= i < members@.len() implies model_members(members@)[i]
                    == model_members(before).update(j as int, (key@, value.model()))[i] by {
                    assert(model_members(members@)[i] == (members@[i].0@, members@[i].1.model()));
                    if i != j {
                        assert(members@[i] == before[i]);
                        assert(model_members(before)[i] == (before[i].0@, before[i].1.model()));
                    } else {
                        assert(members@[i] == (key_string, value));
                    }
                }
                assert(model_members(members@) =~= model_members(before).update(
                    j as int,
                    (key@, value.model()),
                ));
            }
        }
        Option::None => {
            proof {
                assert forall|i: int| 0 <= i < before.len() implies #[trigger] model_members(
                    before,
                )[i].0 != key@ by {
                    assert(before[i].0@ != key@);
                }
                lemma_sobj_insert_none(model_members(before), key@, value.model());
            }
            members.push((key_string, value));
            proof {
                lemma_model_members(members@);
                assert forall|i: int| 0 <= i < members@.len() implies model_members(members@)[i]
                    == model_members(before).push((key@, value.model()))[i] by {
                    if i < before.len() {
                        assert(members@[i] == before[i]);
                    } else {
                        assert(members@[i] == (key_string, value));
                    }
                }
                assert(model_members(members@) =~= model_members(before).push(
                    (key@, value.model()),
                ));
            }
        }
    }
}

/// Whether `whole` binds `m`'s key to a value structurally equal to `m`'s.
pub open spec fn member_ok(
    whole: Seq<(Seq<char>, SpecField)>,
    m: (Seq<char>, SpecField),
) -> bool {
    match sobj_get(whole, m.0) {
        Option::Some(w) => equiv(m.1, w),
        Option::None => false,
    }
}

/// `members_included`, member by member.
pub proof fn lemma_members_included_pointwise(
    part: Seq<(Seq<char>, SpecField)>,
    whole: Seq<(Seq<char>, SpecField)>,
)
    ensures
        members_included(part, whole) <==> (forall|i: int|
            0 <= i < part.len() ==> member_ok(whole, #[trigger] part[i])),
    decreases part.len(),
{
    if part.len() > 0 {
        lemma_members_included_pointwise(part.drop_first(), whole);
        assert(part.drop_first().len() == part.len() - 1);
        assert forall|i: int| 0 <= i < part.len() - 1 implies #[trigger] part.drop_first()[i]
            == part[i + 1] by {}
        if members_included(part, whole) {
            assert forall|i: int| 0 <= i < part.len() implies member_ok(
                whole,
                #[trigger] part[i],
            ) by {
                if i > 0 {
                    assert(part.drop_first()[i - 1] == part[i]);
                }
            }
        } else {
            if member_ok(whole, part[0]) {
                let i = choose|i: int|
                    0 <= i < part.drop_first().len() && !member_ok(
                        whole,
                        #[trigger] part.drop_first()[i],
                    );
                assert(part[i + 1] == part.drop_first()[i]);
                assert(!member_ok(whole, part[i + 1]));
            }
        }
    }
}

/// Whether `whole` binds `m`'s key at all.
pub open spec fn key_ok(whole: Seq<(Seq<char>, SpecField)>, m: (Seq<char>, SpecField)) -> bool {
    sobj_get(whole, m.0) is Some
}

/// `keys_included`, member by member.
pub proof fn lemma_keys_included_pointwise(
    part: Seq<(Seq<char>, SpecField)>,
    whole: Seq<(Seq<char>, SpecField)>,
)
    ensures
        keys_included(part, whole) <==> (forall|i: int|
            0 <= i < part.len() ==> key_ok(whole, #[trigger] part[i])),
    decreases part.len(),
{
    if part.len() > 0 {
        lemma_keys_included_pointwise(part.drop_first(), whole);
        if keys_included(part, whole) {
            assert forall|i: int| 0 <= i < part.len() implies key_ok(whole, #[trigger] part[i]) by {
                if i > 0 {
                    assert(part.drop_first()[i - 1] == part[i]);
                }
            }
        } else {
            if key_ok(whole, part[0]) {
                let i = choose|i: int|
                    0 <= i < part.drop_first().len() && !key_ok(
                        whole,
                        #[trigger] part.drop_first()[i],
                    );
                assert(part[i + 1] == part.drop_first()[i]);
                assert(!key_ok(whole, part[i + 1]));
            }
        }
    }
}

/// `equiv_elems`, element by element.
pub proof fn lemma_equiv_elems_pointwise(x: Seq<SpecField>, y: Seq<SpecField>)
    requires
        x.len() == y.len(),
    ensures
        equiv_elems(x, y) <==> (forall|i: int| 0 <= i < x.len() ==> equiv(#[trigger] x[i], y[i])),
    decreases x.len(),
{
    if x.len() > 0 {
        lemma_equiv_elems_pointwise(x.drop_first(), y.drop_first());
        if equiv_elems(x, y) {
            assert forall|i: int| 0 <= i < x.len() implies equiv(#[trigger] x[i], y[i]) by {
                if i > 0 {
                    assert(x.drop_first()[i - 1] == x[i]);
                    assert(y.drop_first()[i - 1] == y[i]);
                }
            }
        } else {
            if equiv(x[0], y[0]) {
                let i = choose|i: int|
                    0 <= i < x.drop_first().len() && !equiv(
                        #[trigger] x.drop_first()[i],
                        y.drop_first()[i],
                    );
                assert(x[i + 1] == x.drop_first()[i]);
                assert(y[i + 1] == y.drop_first()[i]);
                assert(!equiv(x[i + 1], y[i + 1]));
            }
        }
    }
}

/// Byte-for-byte equality of two digit vectors.
fn digits_eq(x: &Vec<u8>, y: &Vec<u8>) -> (r: bool)
    ensures
        r == (x@ == y@),
{
    if x.len() != y.len() {
        return false;
    }
    let mut i: usize = 0;
    while i < x.len()
        invariant
            0 <= i <= x@.len(),
            x@.len() == y@.len(),
            forall|k: int| 0 <= k < i ==> x@[k] == y@[k],
        decreases x@.len() - i,
    {
        if x[i] != y[i] {
            return false;
        }
        i = i + 1;
    }
    proof {
        assert(x@ =~= y@);
    }
    true
}

/// Structural equality of two values, computed over their models.
fn jf_eq(a: &JsonField, b: &JsonField) -> (r: bool)
    ensures
        r == equiv(a.model(), b.model()),
    decreases *a,
{
    match (a, b) {
        (JsonField::Int(x), JsonField::Int(y)) => x == y,
        (JsonField::Float(d), JsonField::Float(e)) => {
            d.neg == e.neg && d.whole == e.whole && digits_eq(&d.frac, &e.frac)
        }
        (JsonField::String(x), JsonField::String(y)) => x.eq(y),
        (JsonField::Boolean(x), JsonField::Boolean(y)) => x == y,
        (JsonField::Null, JsonField::Null) => true,
        (JsonField::Array(x), JsonField::Array(y)) => arrays_eq(x, y),
        (JsonField::Object(x), JsonField::Object(y)) => objects_eq(x, y),
        _ => false,
    }
}

/// Pointwise structural equality of two element vectors.
fn arrays_eq(x: &Vec<JsonField>, y: &Vec<JsonField>) -> (r: bool)
    ensures
        r == equiv(SpecField::Array(model_elems(x@)), SpecField::Array(model_elems(y@))),
    decreases *x,
{
    proof {
        lemma_model_elems(x@);
        lemma_model_elems(y@);
    }
    if x.len() != y.len() {
        return false;
    }
    proof {
        lemma_equiv_elems_pointwise(model_elems(x@), model_elems(y@));
    }
    let mut i: usize = 0;
    while i < x.len()
        invariant
            0 <= i <= x@.len(),
            x@.len() == y@.len(),
            model_elems(x@).len() == x@.len(),
            model_elems(y@).len() == y@.len(),
            forall|k: int| 0 <= k < x@.len() ==> model_elems(x@)[k] == #[trigger] x@[k].model(),
            forall|k: int| 0 <= k < y@.len() ==> model_elems(y@)[k] == #[trigger] y@[k].model(),
            forall|k: int| 0 <= k < i ==> equiv(#[trigger] model_elems(x@)[k], model_elems(y@)[k]),
        decreases x@.len() - i,
    {
        if !jf_eq(&x[i], &y[i]) {
            proof {
                lemma_equiv_elems_pointwise(model_elems(x@), model_elems(y@));
            }
            return false;
        }
        i = i + 1;
    }
    proof {
        lemma_equiv_elems_pointwise(model_elems(x@), model_elems(y@));
    }
    true
}

/// Key-set and per-key structural equality of two member vectors.
fn objects_eq(x: &Vec<(String, JsonField)>, y: &Vec<(String, JsonField)>) -> (r: bool)
    ensures
        r == equiv(SpecField::Object(model_members(x@)), SpecField::Object(model_members(y@))),
    decreases *x,
{
    proof {
        lemma_model_members(x@);
        lemma_model_members(y@);
        lemma_members_included_pointwise(model_members(x@), model_members(y@));
        lemma_keys_included_pointwise(model_members(y@), model_members(x@));
    }
    if x.len() != y.len() {
        return false;
    }
    let mut i: usize = 0;
    while i < x.len()
        invariant
            0 <= i <= x@.len(),
            x@.len() == y@.len(),
            model_members(x@).len() == x@.len(),
            model_members(y@).len() == y@.len(),
            forall|k: int| 0 <= k < x@.len() ==> model_members(x@)[k] == (
            #[trigger] x@[k].0@,
            x@[k].1.model(),
            ),
            forall|k: int| 0 <= k < y@.len() ==> model_members(y@)[k] == (
            #[trigger] y@[k].0@,
            y@[k].1.model(),
            ),
            forall|k: int| 0 <= k < i ==> member_ok(
                model_members(y@),
                #[trigger] model_members(x@)[k],
            ),
        decreases x@.len() - i,
    {
        let found = obj_find(y, &x[i].0);
        match found {
            Option::Some(j) => {
                proof {
                    assert forall|k: int| 0 <= k < j implies #[trigger] model_members(y@)[k].0
                        != x@[i as int].0@ by {
                        assert(y@[k].0@ != x@[i as int].0@);
                    }
                    lemma_sobj_get_at(model_members(y@), x@[i as int].0@, j as int);
                }
                if !jf_eq(&x[i].1, &y[j].1) {
                    proof {
                        lemma_members_included_pointwise(model_members(x@), model_members(y@));
                        assert(!member_ok(model_members(y@), model_members(x@)[i as int]));
                    }
                    return false;
                }
            }
            Option::None => {
                proof {
                    assert forall|k: int| 0 <= k < y@.len() implies #[trigger] model_members(
                        y@,
                    )[k].0 != x@[i as int].0@ by {
                        assert(y@[k].0@ != x@[i as int].0@);
                    }
                    lemma_sobj_get_none(model_members(y@), x@[i as int].0@);
                    lemma_members_included_pointwise(model_members(x@), model_members(y@));
                    assert(!member_ok(model_members(y@), model_members(x@)[i as int]));
                }
                return false;
            }
        }
        i = i + 1;
    }
    proof {
        lemma_members_included_pointwise(model_members(x@), model_members(y@));
    }
    let mut i: usize = 0;
    while i < y.len()
        invariant
            0 <= i <= y@.len(),
            x@.len() == y@.len(),
            model_members(x@).len() == x@.len(),
            model_members(y@).len() == y@.len(),
            members_included(model_members(x@), model_members(y@)),
            forall|k: int| 0 <= k < x@.len() ==> model_members(x@)[k] == (
            #[trigger] x@[k].0@,
            x@[k].1.model(),
            ),
            forall|k: int| 0 <= k < y@.len() ==> model_members(y@)[k] == (
            #[trigger] y@[k].0@,
            y@[k].1.model(),
            ),
            forall|k: int| 0 <= k < i ==> key_ok(
                model_members(x@),
                #[trigger] model_members(y@)[k],
            ),
        decreases y@.len() - i,
    {
        let found = obj_find(x, &y[i].0);
        match found {
            Option::Some(j) => {
                proof {
                    assert forall|k: int| 0 <= k < j implies #[trigger] model_members(x@)[k].0
                        != y@[i as int].0@ by {
                        assert(x@[k].0@ != y@[i as int].0@);
                    }
                    lemma_sobj_get_at(model_members(x@), y@[i as int].0@, j as int);
                }
            }
            Option::None => {
                proof {
                    assert forall|k: int| 0 <= k < x@.len() implies #[trigger] model_members(
                        x@,
                    )[k].0 != y@[i as int].0@ by {
                        assert(x@[k].0@ != y@[i as int].0@);
                    }
                    lemma_sobj_get_none(model_members(x@), y@[i as int].0@);
                    lemma_keys_included_pointwise(model_members(y@), model_members(x@));
                    assert(!key_ok(model_members(x@), model_members(y@)[i as int]));
                }
                return false;
            }
        }
        i = i + 1;
    }
    proof {
        lemma_keys_included_pointwise(model_members(y@), model_members(x@));
    }
    true
}

impl PartialEq for JsonField {
    /// Structural equality as defined by `equiv`: arrays elementwise in
    /// order, objects by key set and per-key value in any order.
    fn eq(&self, other: &Self) -> (r: bool) {
        jf_eq(self, other)
    }
}

impl vstd::std_specs::cmp::PartialEqSpecImpl for JsonField {
    open spec fn obeys_eq_spec() -> bool {
        true
    }

    open spec fn eq_spec(&self, other: &Self) -> bool {
        equiv(self.model(), other.model())
    }
}

} // verus!
