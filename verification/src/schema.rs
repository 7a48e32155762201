//! Tabular schemas: named, typed field lists whose identity is the content
//! hash of the field list.

use vstd::prelude::*;

use crate::error::OxenError;
use crate::hash;

verus! {

/// One column: a name and the spelling of its dtype.
#[derive(Debug)]
pub struct Field {
    pub name: String,
    pub dtype: String,
}

pub ghost struct FieldV {
    pub name: Seq<char>,
    pub dtype: Seq<char>,
}

impl View for Field {
    type V = FieldV;

    open spec fn view(&self) -> FieldV {
        FieldV { name: self.name@, dtype: self.dtype@ }
    }
}

impl DeepView for Field {
    type V = FieldV;

    open spec fn deep_view(&self) -> FieldV {
        self.view()
    }
}

impl Clone for Field {
    fn clone(&self) -> (r: Field)
        ensures
            r@ == self@,
    {
        Field { name: self.name.clone(), dtype: self.dtype.clone() }
    }
}

/// The characters hashed for a field list: every name and dtype in order,
/// each preceded by a unit separator so field boundaries cannot collide.
pub open spec fn fields_concat(fields: Seq<FieldV>) -> Seq<char>
    decreases fields.len(),
{
    if fields.len() == 0 {
        Seq::empty()
    } else {
        fields_concat(fields.drop_last()) + seq!['\u{1f}'] + fields.last().name
            + seq!['\u{1f}'] + fields.last().dtype
    }
}

/// The schema hash determined by a field list.
pub open spec fn fields_hash(fields: Seq<FieldV>) -> Seq<char> {
    hash::hash_of_chars(fields_concat(fields))
}

/// The index of the first field with this name, or -1.
pub open spec fn field_index_of(fields: Seq<FieldV>, name: Seq<char>) -> int
    decreases fields.len(),
{
    if fields.len() == 0 {
        -1
    } else if fields[0].name == name {
        0
    } else {
        let rest = field_index_of(fields.drop_first(), name);
        if rest == -1 {
            -1
        } else {
            rest + 1
        }
    }
}

pub open spec fn has_field_name_spec(fields: Seq<FieldV>, name: Seq<char>) -> bool {
    field_index_of(fields, name) >= 0
}

/// The index bounds and found field of `field_index_of`.
pub proof fn lemma_field_index_of(fields: Seq<FieldV>, name: Seq<char>)
    ensures
        -1 <= field_index_of(fields, name) < fields.len(),
        field_index_of(fields, name) >= 0 ==> fields[field_index_of(fields, name)].name
            == name,
        field_index_of(fields, name) == -1 ==> forall|i: int|
            0 <= i < fields.len() ==> fields[i].name != name,
        field_index_of(fields, name) >= 0 ==> forall|i: int|
            0 <= i < field_index_of(fields, name) ==> fields[i].name != name,
    decreases fields.len(),
{
    if fields.len() > 0 && fields[0].name != name {
        lemma_field_index_of(fields.drop_first(), name);
        assert(forall|i: int| 1 <= i < fields.len() ==> fields[i] == fields.drop_first()[i - 1]);
    }
}

/// Strings joined by a separator, in order.
pub open spec fn join_with(items: Seq<Seq<char>>, sep: Seq<char>) -> Seq<char>
    decreases items.len(),
{
    if items.len() == 0 {
        Seq::empty()
    } else if items.len() == 1 {
        items[0]
    } else {
        join_with(items.drop_last(), sep) + sep + items.last()
    }
}

/// The names of a field list, in order.
pub open spec fn field_names_of(fields: Seq<FieldV>) -> Seq<Seq<char>> {
    Seq::new(fields.len(), |i: int| fields[i].name)
}

/// Join strings with a separator.
pub fn join_strings(items: &Vec<String>, sep: &str) -> (r: String)
    ensures
        r@ == join_with(items.deep_view(), sep@),
{
    let ghost dv = items.deep_view();
    let mut out = String::new();
    let mut i: usize = 0;
    while i < items.len()
        invariant
            0 <= i <= items@.len(),
            dv == items.deep_view(),
            dv.len() == items@.len(),
            out@ == join_with(dv.subrange(0, i as int), sep@),
        decreases items@.len() - i,
    {
        if i > 0 {
            out.append(sep);
        }
        out.append(items[i].as_str());
        proof {
            let pre = dv.subrange(0, i as int);
            let post = dv.subrange(0, i as int + 1);
            assert(post.drop_last() =~= pre);
            assert(post.last() == dv[i as int]);
            if i == 0 {
                assert(out@ =~= join_with(post, sep@));
            } else {
                assert(out@ =~= join_with(post, sep@));
            }
        }
        i = i + 1;
    }
    proof {
        assert(dv.subrange(0, dv.len() as int) =~= dv);
    }
    out
}

/// A schema: an optional name, the hash of its field list, and the fields.
#[derive(Debug)]
pub struct Schema {
    pub name: Option<String>,
    pub hash: String,
    pub fields: Vec<Field>,
}

pub ghost struct SchemaV {
    pub name: Option<Seq<char>>,
    pub hash: Seq<char>,
    pub fields: Seq<FieldV>,
}

impl View for Schema {
    type V = SchemaV;

    open spec fn view(&self) -> SchemaV {
        SchemaV {
            name: match self.name {
                Some(n) => Some(n@),
                None => None,
            },
            hash: self.hash@,
            fields: self.fields.deep_view(),
        }
    }
}

impl DeepView for Schema {
    type V = SchemaV;

    open spec fn deep_view(&self) -> SchemaV {
        self.view()
    }
}

impl Clone for Schema {
    fn clone(&self) -> (r: Schema)
        ensures
            r@ == self@,
    {
        let mut fields: Vec<Field> = Vec::new();
        let mut i: usize = 0;
        while i < self.fields.len()
            invariant
                0 <= i <= self.fields@.len(),
                fields.deep_view() =~= self@.fields.subrange(0, i as int),
            decreases self.fields@.len() - i,
        {
            let ghost prev = fields.deep_view();
            let f = self.fields[i].clone();
            proof {
                assert(f@ == self@.fields[i as int]);
            }
            fields.push(f);
            proof {
                assert(fields.deep_view() =~= prev.push(f@));
                assert(fields.deep_view() =~= self@.fields.subrange(0, i as int + 1));
            }
            i = i + 1;
        }
        proof {
            assert(self@.fields.subrange(0, self@.fields.len() as int) =~= self@.fields);
        }
        let name = match &self.name {
            Some(n) => Some(n.clone()),
            None => None,
        };
        let r = Schema { name, hash: self.hash.clone(), fields };
        proof {
            assert(r@.fields =~= self@.fields);
        }
        r
    }
}

/// A schema is well formed when its hash is the hash of its field list.
pub open spec fn schema_wf(s: SchemaV) -> bool {
    s.hash == fields_hash(s.fields)
}

impl Schema {
    /// Hash a field list: the stable content hash of all names and dtypes.
    pub fn hash_fields(fields: &Vec<Field>) -> (r: String)
        ensures
            r@ == fields_hash(fields.deep_view()),
            hash::is_hash(r@),
    {
        let ghost dv = fields.deep_view();
        let mut buffer = String::new();
        let mut i: usize = 0;
        while i < fields.len()
            invariant
                0 <= i <= fields@.len(),
                dv == fields.deep_view(),
                dv.len() == fields@.len(),
                buffer@ == fields_concat(dv.subrange(0, i as int)),
            decreases fields@.len() - i,
        {
            let sep = crate::codec::char_to_string('\u{1f}');
            buffer.append(sep.as_str());
            buffer.append(fields[i].name.as_str());
            buffer.append(sep.as_str());
            buffer.append(fields[i].dtype.as_str());
            proof {
                let pre = dv.subrange(0, i as int);
                let post = dv.subrange(0, i as int + 1);
                assert(post.drop_last() =~= pre);
                assert(post.last() == dv[i as int]);
                assert(buffer@ =~= fields_concat(post));
            }
            i = i + 1;
        }
        proof {
            assert(dv.subrange(0, dv.len() as int) =~= dv);
        }
        hash::hash_str(buffer.as_str())
    }

    /// A named schema over these fields; the hash is computed, never given.
    pub fn new(name: &str, fields: Vec<Field>) -> (r: Schema)
        ensures
            r@.name == Some(name@),
            r@.fields == fields.deep_view(),
            schema_wf(r@),
    {
        let hash = Schema::hash_fields(&fields);
        Schema { name: Some(name.to_owned()), hash, fields }
    }

    /// An anonymous schema over these fields.
    pub fn from_fields(fields: Vec<Field>) -> (r: Schema)
        ensures
            r@.name is None,
            r@.fields == fields.deep_view(),
            schema_wf(r@),
    {
        let hash = Schema::hash_fields(&fields);
        Schema { name: None, hash, fields }
    }

    /// Whether some field has exactly this name and dtype.
    pub fn has_field(&self, field: &Field) -> (r: bool)
        ensures
            r == exists|i: int|
                0 <= i < self@.fields.len() && #[trigger] self@.fields[i].name == field@.name
                    && self@.fields[i].dtype == field@.dtype,
    {
        let mut i: usize = 0;
        while i < self.fields.len()
            invariant
                0 <= i <= self.fields@.len(),
                forall|k: int|
                    0 <= k < i ==> !(#[trigger] self@.fields[k].name == field@.name
                        && self@.fields[k].dtype == field@.dtype),
            decreases self.fields@.len() - i,
        {
            if crate::data_type::str_eq(self.fields[i].name.as_str(), field.name.as_str())
                && crate::data_type::str_eq(self.fields[i].dtype.as_str(), field.dtype.as_str()) {
                proof {
                    assert(self@.fields[i as int].name == field@.name && self@.fields[
                        i as int
                    ].dtype == field@.dtype);
                }
                return true;
            }
            i = i + 1;
        }
        false
    }

    /// Whether some field has this name.
    pub fn has_field_name(&self, name: &str) -> (r: bool)
        ensures
            r == has_field_name_spec(self@.fields, name@),
    {
        let mut i: usize = 0;
        while i < self.fields.len()
            invariant
                0 <= i <= self.fields@.len(),
                forall|k: int| 0 <= k < i ==> #[trigger] self@.fields[k].name != name@,
            decreases self.fields@.len() - i,
        {
            if crate::data_type::str_eq(self.fields[i].name.as_str(), name) {
                proof {
                    assert(self@.fields[i as int].name == name@);
                    lemma_field_index_of(self@.fields, name@);
                }
                return true;
            }
            i = i + 1;
        }
        proof {
            lemma_field_index_of(self@.fields, name@);
        }
        false
    }

    /// The first field with this name, if any.
    pub fn get_field(&self, name: &str) -> (r: Option<&Field>)
        ensures
            match r {
                Some(f) => {
                    &&& has_field_name_spec(self@.fields, name@)
                    &&& f@ == self@.fields[field_index_of(self@.fields, name@)]
                    &&& f@.name == name@
                },
                None => !has_field_name_spec(self@.fields, name@),
            },
    {
        proof {
            lemma_field_index_of(self@.fields, name@);
        }
        let mut i: usize = 0;
        while i < self.fields.len()
            invariant
                0 <= i <= self.fields@.len(),
                forall|k: int| 0 <= k < i ==> #[trigger] self@.fields[k].name != name@,
            decreases self.fields@.len() - i,
        {
            if crate::data_type::str_eq(self.fields[i].name.as_str(), name) {
                proof {
                    lemma_field_index_of_prefix(self@.fields, name@, i as int);
                }
                return Some(&self.fields[i]);
            }
            i = i + 1;
        }
        None
    }

    /// All field names joined by commas.
    pub fn fields_to_csv(&self) -> (r: String)
        ensures
            r@ == join_with(field_names_of(self@.fields), ","@),
    {
        let names = self.fields_names();
        proof {
            assert(names.deep_view() =~= field_names_of(self@.fields));
        }
        join_strings(&names, ",")
    }

    /// The field names, in order.
    pub fn fields_names(&self) -> (r: Vec<String>)
        ensures
            r.deep_view() =~= field_names_of(self@.fields),
    {
        let mut names: Vec<String> = Vec::new();
        let mut i: usize = 0;
        while i < self.fields.len()
            invariant
                0 <= i <= self.fields@.len(),
                names.deep_view() =~= field_names_of(self@.fields).subrange(0, i as int),
            decreases self.fields@.len() - i,
        {
            let ghost prev = names.deep_view();
            let n = self.fields[i].name.clone();
            proof {
                assert(n@ == self@.fields[i as int].name);
            }
            names.push(n);
            proof {
                assert(names.deep_view() =~= prev.push(n@));
                assert(names.deep_view() =~= field_names_of(self@.fields).subrange(
                    0,
                    i as int + 1,
                ));
            }
            i = i + 1;
        }
        proof {
            assert(field_names_of(self@.fields).subrange(
                0,
                field_names_of(self@.fields).len() as int,
            ) =~= field_names_of(self@.fields));
        }
        names
    }

    /// Fields of `self` whose name does not appear in `other`: what a new
    /// schema added relative to a committed one.
    pub fn added_fields(&self, other: &Schema) -> (r: Vec<Field>)
        ensures
            r.deep_view() == fields_not_in(self@.fields, other@.fields),
    {
        let mut out: Vec<Field> = Vec::new();
        let mut i: usize = 0;
        while i < self.fields.len()
            invariant
                0 <= i <= self.fields@.len(),
                out.deep_view() == fields_not_in(
                    self@.fields.subrange(0, i as int),
                    other@.fields,
                ),
            decreases self.fields@.len() - i,
        {
            let present = other.has_field_name(self.fields[i].name.as_str());
            let ghost prev = out.deep_view();
            if !present {
                let f = self.fields[i].clone();
                proof {
                    assert(f@ == self@.fields[i as int]);
                }
                out.push(f);
                proof {
                    assert(out.deep_view() =~= prev.push(f@));
                }
            }
            proof {
                let pre = self@.fields.subrange(0, i as int);
                let post = self@.fields.subrange(0, i as int + 1);
                assert(post.drop_last() =~= pre);
                assert(post.last() == self@.fields[i as int]);
                assert(out.deep_view() =~= fields_not_in(post, other@.fields));
            }
            i = i + 1;
        }
        proof {
            assert(self@.fields.subrange(0, self@.fields.len() as int) =~= self@.fields);
        }
        out
    }

    /// Fields of `other` whose name does not appear in `self`: what a new
    /// schema removed relative to a committed one.
    pub fn removed_fields(&self, other: &Schema) -> (r: Vec<Field>)
        ensures
            r.deep_view() == fields_not_in(other@.fields, self@.fields),
    {
        other.added_fields(self)
    }
}

/// The fields of `a` whose names are absent from `other`, in order.
pub open spec fn fields_not_in(a: Seq<FieldV>, other: Seq<FieldV>) -> Seq<FieldV>
    decreases a.len(),
{
    if a.len() == 0 {
        Seq::empty()
    } else if !has_field_name_spec(other, a.last().name) {
        fields_not_in(a.drop_last(), other).push(a.last())
    } else {
        fields_not_in(a.drop_last(), other)
    }
}

/// A hit at index i below the first -1 answer contradicts `field_index_of`.
proof fn lemma_field_index_of_prefix(fields: Seq<FieldV>, name: Seq<char>, i: int)
    requires
        0 <= i < fields.len(),
        fields[i].name == name,
        forall|k: int| 0 <= k < i ==> #[trigger] fields[k].name != name,
    ensures
        field_index_of(fields, name) == i,
    decreases i,
{
    lemma_field_index_of(fields, name);
    if fields[0].name != name {
        lemma_field_index_of_prefix(fields.drop_first(), name, i - 1);
        assert(forall|k: int| 1 <= k < fields.len() ==> fields[k] == fields.drop_first()[k - 1]);
    }
}

} // verus!

verus! {

// ---------------------------------------------------------------------
// The schema payload store
// ---------------------------------------------------------------------
/// One stored schema payload, keyed by the hash of its field list, so a
/// schema hash found in a tree node maps back to its fields.
#[derive(Debug)]
pub struct SchemaRecord {
    pub hash: String,
    pub fields: Vec<Field>,
}

pub ghost struct SchemaRecordV {
    pub hash: Seq<char>,
    pub fields: Seq<FieldV>,
}

impl View for SchemaRecord {
    type V = SchemaRecordV;

    open spec fn view(&self) -> SchemaRecordV {
        SchemaRecordV { hash: self.hash@, fields: self.fields.deep_view() }
    }
}

impl DeepView for SchemaRecord {
    type V = SchemaRecordV;

    open spec fn deep_view(&self) -> SchemaRecordV {
        self.view()
    }
}

/// The field list stored under this hash: the first record that matches.
pub open spec fn schema_at(store: Seq<SchemaRecordV>, h: Seq<char>) -> Option<Seq<FieldV>>
    decreases store.len(),
{
    if store.len() == 0 {
        None
    } else if store[0].hash == h {
        Some(store[0].fields)
    } else {
        schema_at(store.drop_first(), h)
    }
}

/// Every stored field list sits under its own content hash.
pub open spec fn schemas_wf(store: Seq<SchemaRecordV>) -> bool {
    forall|i: int|
        0 <= i < store.len() ==> (#[trigger] store[i]).hash == fields_hash(store[i].fields)
}

/// A hit after a prefix of misses is the first hit.
proof fn lemma_schema_at_first_hit(store: Seq<SchemaRecordV>, h: Seq<char>, i: int)
    requires
        0 <= i < store.len(),
        store[i].hash == h,
        forall|k: int| 0 <= k < i ==> #[trigger] store[k].hash != h,
    ensures
        schema_at(store, h) == Some(store[i].fields),
    decreases i,
{
    if i > 0 {
        lemma_schema_at_first_hit(store.drop_first(), h, i - 1);
        assert(forall|k: int|
            0 <= k < store.drop_first().len() ==> store.drop_first()[k] == store[k + 1]);
    }
}

/// Appending a record only ever fills in a key that was absent.
proof fn lemma_schema_at_push(store: Seq<SchemaRecordV>, r: SchemaRecordV, h: Seq<char>)
    ensures
        schema_at(store, h) is Some ==> schema_at(store.push(r), h) == schema_at(store, h),
        schema_at(store, h) is None && r.hash == h ==> schema_at(store.push(r), h) == Some(
            r.fields,
        ),
        schema_at(store, h) is None && r.hash != h ==> schema_at(store.push(r), h) is None,
    decreases store.len(),
{
    if store.len() == 0 {
        assert(store.push(r)[0] == r);
        if r.hash != h {
            assert(schema_at(store.push(r).drop_first(), h) is None);
        }
    } else {
        lemma_schema_at_push(store.drop_first(), r, h);
        assert(store.push(r).drop_first() =~= store.drop_first().push(r));
    }
}

/// Look a field list up by its schema hash.
pub fn get_schema<'a>(store: &'a Vec<SchemaRecord>, h: &str) -> (r: Option<&'a Vec<Field>>)
    ensures
        match r {
            Some(fields) => schema_at(store.deep_view(), h@) == Some(fields.deep_view()),
            None => schema_at(store.deep_view(), h@) is None,
        },
{
    let ghost sv = store.deep_view();
    let mut i: usize = 0;
    while i < store.len()
        invariant
            0 <= i <= store@.len(),
            sv == store.deep_view(),
            sv.len() == store@.len(),
            forall|k: int| 0 <= k < i ==> (#[trigger] sv[k]).hash != h@,
        decreases store@.len() - i,
    {
        if crate::data_type::str_eq(store[i].hash.as_str(), h) {
            proof {
                lemma_schema_at_first_hit(sv, h@, i as int);
            }
            return Some(&store[i].fields);
        }
        i = i + 1;
    }
    proof {
        lemma_schema_at_miss(sv, h@);
    }
    None
}

/// No record matches, so the lookup misses.
proof fn lemma_schema_at_miss(store: Seq<SchemaRecordV>, h: Seq<char>)
    requires
        forall|k: int| 0 <= k < store.len() ==> (#[trigger] store[k]).hash != h,
    ensures
        schema_at(store, h) is None,
    decreases store.len(),
{
    if store.len() > 0 {
        assert(forall|k: int|
            0 <= k < store.drop_first().len() ==> store.drop_first()[k] == store[k + 1]);
        lemma_schema_at_miss(store.drop_first(), h);
    }
}

/// Whether two field lists agree name for name and dtype for dtype.
fn fields_eq(a: &Vec<Field>, b: &Vec<Field>) -> (r: bool)
    ensures
        r == (a.deep_view() == b.deep_view()),
{
    if a.len() != b.len() {
        proof {
            assert(a.deep_view().len() != b.deep_view().len());
        }
        return false;
    }
    let ghost av = a.deep_view();
    let ghost bv = b.deep_view();
    let mut i: usize = 0;
    while i < a.len()
        invariant
            0 <= i <= a@.len(),
            av == a.deep_view(),
            bv == b.deep_view(),
            av.len() == a@.len(),
            bv.len() == av.len(),
            forall|k: int| 0 <= k < i ==> av[k] == bv[k],
        decreases a@.len() - i,
    {
        if !crate::data_type::str_eq(a[i].name.as_str(), b[i].name.as_str())
            || !crate::data_type::str_eq(a[i].dtype.as_str(), b[i].dtype.as_str()) {
            proof {
                if av == bv {
                    assert(av[i as int] == bv[i as int]);
                }
            }
            return false;
        }
        proof {
            assert(av[i as int] == bv[i as int]);
        }
        i = i + 1;
    }
    proof {
        assert(av =~= bv);
    }
    true
}

/// Store a field list under the hash of its content, with the same
/// discipline as the object stores: re-storing the same list is a no-op,
/// and a key held by a different list is reported, never overwritten.
pub fn put_schema(store: &mut Vec<SchemaRecord>, fields: Vec<Field>) -> (r: Result<
    String,
    OxenError,
>)
    requires
        schemas_wf(old(store).deep_view()),
    ensures
        schemas_wf(final(store).deep_view()),
        match r {
            Ok(h) => {
                &&& h@ == fields_hash(fields.deep_view())
                &&& schema_at(final(store).deep_view(), h@) == Some(fields.deep_view())
                &&& forall|h2: Seq<char>|
                    schema_at(old(store).deep_view(), h2) is Some ==> schema_at(
                        final(store).deep_view(),
                        h2,
                    ) == schema_at(old(store).deep_view(), h2)
            },
            Err(e) => {
                &&& e == OxenError::Corruption
                &&& final(store).deep_view() == old(store).deep_view()
                &&& schema_at(old(store).deep_view(), fields_hash(fields.deep_view()))
                    matches Some(f2) && f2 != fields.deep_view()
            },
        },
{
    let h = Schema::hash_fields(&fields);
    let existing = get_schema(store, h.as_str());
    match existing {
        Some(f) => {
            if fields_eq(f, &fields) {
                Ok(h)
            } else {
                Err(OxenError::Corruption)
            }
        },
        None => {
            let ghost prev = store.deep_view();
            let record = SchemaRecord { hash: h.clone(), fields };
            let ghost rv = record@;
            store.push(record);
            proof {
                assert(store.deep_view() =~= prev.push(rv));
                lemma_schema_at_push(prev, rv, h@);
                assert forall|h2: Seq<char>| schema_at(prev, h2) is Some implies schema_at(
                    store.deep_view(),
                    h2,
                ) == schema_at(prev, h2) by {
                    lemma_schema_at_push(prev, rv, h2);
                }
                assert forall|i: int| 0 <= i < store.deep_view().len() implies (
                #[trigger] store.deep_view()[i]).hash == fields_hash(
                    store.deep_view()[i].fields,
                ) by {
                    if i < prev.len() {
                        assert(store.deep_view()[i] == prev[i]);
                    }
                }
            }
            Ok(h)
        },
    }
}

} // verus!
