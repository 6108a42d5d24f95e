//! The document model: the objects of a PDF file as plain values.
//!
//! Arrays, dictionaries, streams and references are held by the library's
//! own types, since the flattening logic reads them; every other object
//! (null, booleans, numbers, names, strings) is carried through unchanged as
//! the `lopdf` value it was read as.
use vstd::prelude::*;

verus! {

/// `lopdf::Object`, carried through opaquely for the objects the logic never reads.
#[verifier::external_type_specification]
#[verifier::external_body]
pub struct ExLopdfObject(lopdf::Object);

/// An object number together with its generation number.
pub type ObjectId = (u32, u16);

/// The most references that one lookup follows before it gives up.
pub const DEREF_LIMIT: usize = 128;

/// Why an object could not be looked up.
#[derive(Clone, Copy, PartialEq, Eq, Structural, Debug)]
pub enum ObjectError {
    /// No object is stored under the requested id.
    ObjectNotFound,
    /// The chain of references is longer than the lookup follows.
    ReferenceLimit,
}

/// A PDF object.
#[derive(Debug)]
pub enum PdfObject {
    Array(Vec<PdfObject>),
    Dictionary(PdfDict),
    Stream(PdfStream),
    Reference(ObjectId),
    /// Any other object: null, boolean, number, name or string.
    Scalar(lopdf::Object),
}

/// A dictionary: its entries in their order; a key is the name's bytes.
#[derive(Debug)]
pub struct PdfDict {
    pub entries: Vec<(Vec<u8>, PdfObject)>,
}

/// A stream: its dictionary and its (possibly encoded) bytes.
#[derive(Debug)]
pub struct PdfStream {
    pub dict: PdfDict,
    pub content: Vec<u8>,
    pub allows_compression: bool,
}

/// A document: its objects by id, the largest object number in use, and
/// its trailer.  When an id occurs more than once, the last entry counts.
#[derive(Debug)]
pub struct PdfDocument {
    pub objects: Vec<(ObjectId, PdfObject)>,
    pub max_id: u32,
    pub trailer: PdfDict,
}

// ---------------------------------------------------------------------
// Dictionaries
// ---------------------------------------------------------------------

/// `i` is the first position of `key` among `entries`.
pub open spec fn is_first_key(entries: Seq<(Vec<u8>, PdfObject)>, key: Seq<u8>, i: int) -> bool {
    &&& 0 <= i < entries.len()
    &&& entries[i].0@ == key
    &&& forall|j: int| 0 <= j < i ==> entries[j].0@ != key
}

/// The position of `key` among `entries`, if it occurs.
pub open spec fn key_position(entries: Seq<(Vec<u8>, PdfObject)>, key: Seq<u8>) -> Option<int> {
    if exists|i: int| is_first_key(entries, key, i) {
        Some(choose|i: int| is_first_key(entries, key, i))
    } else {
        None
    }
}

/// The value stored under `key`.
pub open spec fn entries_get(entries: Seq<(Vec<u8>, PdfObject)>, key: Seq<u8>) -> Option<PdfObject> {
    match key_position(entries, key) {
        Some(i) => Some(entries[i].1),
        None => None,
    }
}

/// `new` is `old` with `value` stored under `key`: an existing entry keeps
/// its place, a new one goes last.
pub open spec fn entries_set(
    old: Seq<(Vec<u8>, PdfObject)>,
    new: Seq<(Vec<u8>, PdfObject)>,
    key: Seq<u8>,
    value: PdfObject,
) -> bool {
    match key_position(old, key) {
        Some(i) => new == old.update(i, (old[i].0, value)),
        None => {
            &&& new.len() == old.len() + 1
            &&& new.drop_last() == old
            &&& new.last().0@ == key
            &&& new.last().1 == value
        },
    }
}

/// `old` without the entry for `key`; the last entry takes its place.
pub open spec fn entries_remove(old: Seq<(Vec<u8>, PdfObject)>, key: Seq<u8>) -> Seq<(Vec<u8>, PdfObject)> {
    match key_position(old, key) {
        Some(i) => old.update(i, old.last()).drop_last(),
        None => old,
    }
}

/// No key occurs twice.
pub open spec fn keys_unique(entries: Seq<(Vec<u8>, PdfObject)>) -> bool {
    forall|i: int, j: int|
        0 <= i < entries.len() && 0 <= j < entries.len() && i != j ==> entries[i].0@ != entries[j].0@
}

/// Every dictionary stored as an object has each key once, as a
/// `lopdf::Dictionary` (a map) always does.  The dictionary and document
/// updates below keep it.
pub open spec fn dictionaries_keyed_once(doc: PdfDocument) -> bool {
    forall|j: int|
        0 <= j < doc.objects@.len() ==> ((#[trigger] doc.objects@[j]).1 matches PdfObject::Dictionary(d)
            ==> keys_unique(d.entries@))
}

pub proof fn lemma_first_exists(entries: Seq<(Vec<u8>, PdfObject)>, key: Seq<u8>, j: int)
    requires
        0 <= j < entries.len(),
        entries[j].0@ == key,
    ensures
        key_position(entries, key) is Some,
    decreases j,
{
    if exists|k: int| 0 <= k < j && entries[k].0@ == key {
        let k = choose|k: int| 0 <= k < j && entries[k].0@ == key;
        lemma_first_exists(entries, key, k);
    } else {
        assert(is_first_key(entries, key, j));
    }
}

pub proof fn lemma_no_position(entries: Seq<(Vec<u8>, PdfObject)>, key: Seq<u8>)
    requires
        key_position(entries, key) is None,
    ensures
        forall|j: int| 0 <= j < entries.len() ==> entries[j].0@ != key,
{
    assert forall|j: int| 0 <= j < entries.len() implies entries[j].0@ != key by {
        if entries[j].0@ == key {
            lemma_first_exists(entries, key, j);
        }
    }
}

pub proof fn lemma_position_of_unique(entries: Seq<(Vec<u8>, PdfObject)>, key: Seq<u8>)
    requires
        keys_unique(entries),
    ensures
        key_position(entries, key) matches Some(i) ==> forall|j: int|
            0 <= j < entries.len() && j != i ==> entries[j].0@ != key,
{
    if let Some(i) = key_position(entries, key) {
        assert(is_first_key(entries, key, i));
    }
}

/// Removing a key from a dictionary that holds each key once leaves none
/// of it, and still each key once.
pub proof fn lemma_remove_unique(entries: Seq<(Vec<u8>, PdfObject)>, key: Seq<u8>)
    requires
        keys_unique(entries),
    ensures
        entries_get(entries_remove(entries, key), key) is None,
        keys_unique(entries_remove(entries, key)),
{
    let new = entries_remove(entries, key);
    lemma_position_of_unique(entries, key);
    match key_position(entries, key) {
        Some(i) => {
            assert(is_first_key(entries, key, i));
            let last = entries.len() - 1;
            assert forall|j: int| 0 <= j < new.len() implies new[j].0@ != key by {
                if j == i {
                    assert(new[j] == entries[last]);
                } else {
                    assert(new[j] == entries[j]);
                }
            }
            assert forall|a: int, b: int| 0 <= a < new.len() && 0 <= b < new.len() && a != b implies new[a].0@
                != new[b].0@ by {
                let oa = if a == i { last } else { a };
                let ob = if b == i { last } else { b };
                assert(new[a] == entries[oa]);
                assert(new[b] == entries[ob]);
            }
        },
        None => {
            lemma_no_position(entries, key);
        },
    }
    if key_position(new, key) is Some {
        let k = key_position(new, key)->Some_0;
        assert(is_first_key(new, key, k));
    }
}

/// Setting a key in a dictionary that holds each key once keeps each key
/// once and leaves the other keys' values.
pub proof fn lemma_set_unique(
    old: Seq<(Vec<u8>, PdfObject)>,
    new: Seq<(Vec<u8>, PdfObject)>,
    key: Seq<u8>,
    value: PdfObject,
)
    requires
        keys_unique(old),
        entries_set(old, new, key, value),
    ensures
        keys_unique(new),
{
    match key_position(old, key) {
        Some(i) => {
            assert forall|a: int, b: int| 0 <= a < new.len() && 0 <= b < new.len() && a != b implies new[a].0@
                != new[b].0@ by {
                assert(new[a].0 == old[a].0);
                assert(new[b].0 == old[b].0);
            }
        },
        None => {
            lemma_no_position(old, key);
            assert forall|a: int, b: int| 0 <= a < new.len() && 0 <= b < new.len() && a != b implies new[a].0@
                != new[b].0@ by {
                if a < old.len() {
                    assert(new[a] == old[a]);
                }
                if b < old.len() {
                    assert(new[b] == old[b]);
                }
            }
        },
    }
}

pub proof fn lemma_first_key_unique(entries: Seq<(Vec<u8>, PdfObject)>, key: Seq<u8>, i: int)
    requires
        is_first_key(entries, key, i),
    ensures
        key_position(entries, key) == Some(i),
{
    let k = choose|k: int| is_first_key(entries, key, k);
    assert(is_first_key(entries, key, k));
    if k < i {
        assert(entries[k].0@ != key);
    } else if i < k {
        assert(entries[i].0@ != key);
    }
}

/// Byte-wise equality of two keys.
pub fn bytes_equal(a: &[u8], b: &[u8]) -> (r: bool)
    ensures
        r == (a@ == b@),
{
    if a.len() != b.len() {
        return false;
    }
    let mut i: usize = 0;
    while i < a.len()
        invariant
            a@.len() == b@.len(),
            i <= a@.len(),
            forall|j: int| 0 <= j < i ==> a@[j] == b@[j],
        decreases a@.len() - i,
    {
        if a[i] != b[i] {
            return false;
        }
        i = i + 1;
    }
    assert(a@ =~= b@);
    true
}

impl PdfDict {
    /// An empty dictionary.
    pub fn new() -> (d: PdfDict)
        ensures
            d.entries@ == Seq::<(Vec<u8>, PdfObject)>::empty(),
            keys_unique(d.entries@),
    {
        PdfDict { entries: Vec::new() }
    }

    /// The position of `key`, if it occurs.
    pub fn position(&self, key: &[u8]) -> (r: Option<usize>)
        ensures
            match r {
                Some(i) => key_position(self.entries@, key@) == Some(i as int),
                None => key_position(self.entries@, key@) is None,
            },
    {
        let mut i: usize = 0;
        while i < self.entries.len()
            invariant
                i <= self.entries@.len(),
                forall|j: int| 0 <= j < i ==> self.entries@[j].0@ != key@,
            decreases self.entries@.len() - i,
        {
            if bytes_equal(self.entries[i].0.as_slice(), key) {
                proof {
                    lemma_first_key_unique(self.entries@, key@, i as int);
                }
                return Some(i);
            }
            i = i + 1;
        }
        assert(!exists|k: int| is_first_key(self.entries@, key@, k));
        None
    }

    /// The value stored under `key` (`lopdf::Dictionary::get`).
    pub fn get(&self, key: &[u8]) -> (r: Option<&PdfObject>)
        ensures
            match r {
                Some(o) => entries_get(self.entries@, key@) == Some(*o),
                None => entries_get(self.entries@, key@) is None,
            },
    {
        match self.position(key) {
            Some(i) => Some(&self.entries[i].1),
            None => None,
        }
    }

    /// Stores `value` under `key` (`lopdf::Dictionary::set`).
    pub fn set(&mut self, key: Vec<u8>, value: PdfObject)
        ensures
            entries_set(old(self).entries@, final(self).entries@, key@, value),
            keys_unique(old(self).entries@) ==> keys_unique(final(self).entries@),
    {
        match self.position(key.as_slice()) {
            Some(i) => {
                let mut slot = (Vec::new(), PdfObject::Array(Vec::new()));
                self.entries.set_and_swap(i, &mut slot);
                let (k, _previous) = slot;
                self.entries.set(i, (k, value));
                assert(self.entries@ =~= old(self).entries@.update(i as int, (old(self).entries@[i as int].0, value)));
            },
            None => {
                self.entries.push((key, value));
                assert(self.entries@.drop_last() =~= old(self).entries@);
            },
        }
        proof {
            if keys_unique(old(self).entries@) {
                lemma_set_unique(old(self).entries@, self.entries@, key@, value);
            }
        }
    }

    /// Removes the entry for `key`; the last entry takes its place
    /// (`lopdf::Dictionary::remove`).
    pub fn remove(&mut self, key: &[u8])
        ensures
            final(self).entries@ == entries_remove(old(self).entries@, key@),
            keys_unique(old(self).entries@) ==> keys_unique(final(self).entries@),
    {
        match self.position(key) {
            Some(i) => {
                let _removed = self.entries.swap_remove(i);
            },
            None => {},
        }
    }
}

// ---------------------------------------------------------------------
// Documents
// ---------------------------------------------------------------------

/// `i` is the last position of `id` among `objects`.
pub open spec fn is_last_id(objects: Seq<(ObjectId, PdfObject)>, id: ObjectId, i: int) -> bool {
    &&& 0 <= i < objects.len()
    &&& objects[i].0 == id
    &&& forall|j: int| i < j < objects.len() ==> objects[j].0 != id
}

/// The position of the object stored under `id`, if any.
pub open spec fn object_position(objects: Seq<(ObjectId, PdfObject)>, id: ObjectId) -> Option<int> {
    if exists|i: int| is_last_id(objects, id, i) {
        Some(choose|i: int| is_last_id(objects, id, i))
    } else {
        None
    }
}

/// The object stored under `id`, not following references.
pub open spec fn stored_object(objects: Seq<(ObjectId, PdfObject)>, id: ObjectId) -> Option<PdfObject> {
    match object_position(objects, id) {
        Some(i) => Some(objects[i].1),
        None => None,
    }
}

/// Looks `id` up and follows references from there, as
/// `lopdf::Document::get_object` does: the id and the object at the end of
/// the chain.  `hops` references have been followed so far.
pub open spec fn resolve(objects: Seq<(ObjectId, PdfObject)>, id: ObjectId, hops: nat) -> Result<
    (ObjectId, PdfObject),
    ObjectError,
>
    decreases DEREF_LIMIT + 1 - hops,
{
    match stored_object(objects, id) {
        None => Err(ObjectError::ObjectNotFound),
        Some(o) => if hops > DEREF_LIMIT {
            Err(ObjectError::ReferenceLimit)
        } else {
            match o {
                PdfObject::Reference(next) => resolve(objects, next, hops + 1),
                _ => Ok((id, o)),
            }
        },
    }
}

/// The object that `id` leads to (`lopdf::Document::get_object`).
pub open spec fn get_obj(doc: PdfDocument, id: ObjectId) -> Result<PdfObject, ObjectError> {
    match resolve(doc.objects@, id, 0) {
        Ok((_, o)) => Ok(o),
        Err(e) => Err(e),
    }
}

pub proof fn lemma_last_id_unique(objects: Seq<(ObjectId, PdfObject)>, id: ObjectId, i: int)
    requires
        is_last_id(objects, id, i),
    ensures
        object_position(objects, id) == Some(i),
{
    let k = choose|k: int| is_last_id(objects, id, k);
    assert(is_last_id(objects, id, k));
    if k < i {
        assert(objects[i].0 != id);
    } else if i < k {
        assert(objects[k].0 != id);
    }
}

/// What resolving gives when it succeeds: a stored, non-reference object.
pub proof fn lemma_resolve_ok(objects: Seq<(ObjectId, PdfObject)>, id: ObjectId, hops: nat)
    ensures
        resolve(objects, id, hops) matches Ok((t, o)) ==> {
            &&& stored_object(objects, t) == Some(o)
            &&& !(o is Reference)
        },
    decreases DEREF_LIMIT + 1 - hops,
{
    match stored_object(objects, id) {
        None => {},
        Some(o) => if hops <= DEREF_LIMIT {
            match o {
                PdfObject::Reference(next) => lemma_resolve_ok(objects, next, hops + 1),
                _ => {},
            }
        },
    }
}

/// The new stream of a flattened page: `content` under a dictionary that
/// holds only its length (`lopdf::Stream::new` with an empty dictionary).
pub open spec fn is_fresh_stream(o: PdfObject, content: Seq<u8>) -> bool {
    &&& o matches PdfObject::Stream(s)
    &&& s.content@ == content
    &&& s.allows_compression
    &&& s.dict.entries@.len() == 1
    &&& s.dict.entries@[0].0@ == length_key()
    &&& s.dict.entries@[0].1 == PdfObject::Scalar(integer_object(content.len() as i64))
}

pub open spec fn length_key() -> Seq<u8> {
    seq![76u8, 101u8, 110u8, 103u8, 116u8, 104u8]
}

/// The number `lopdf` stores as an integer object for `n`.
pub uninterp spec fn integer_object(n: i64) -> lopdf::Object;

/// Makes the integer object for `n`: the outside constructor
/// `lopdf::Object::Integer` (through `From<i64>`).  Claimed: the result is
/// the value named `integer_object(n)`, a function of `n` alone.
#[verifier::external_body]
fn make_integer_object(n: i64) -> (r: lopdf::Object)
    ensures
        r == integer_object(n),
{
    lopdf::Object::from(n)
}


/// The object number that `lopdf::Document::add_object` hands out next:
/// one past the largest in use (wrapping around at the top).
pub open spec fn next_number(max_id: u32) -> u32 {
    if max_id == u32::MAX {
        0
    } else {
        (max_id + 1) as u32
    }
}

/// `new` is `old` with the dictionary that `id` leads to changed into one
/// whose entries are `entries_new`-related to its old ones; every other
/// object, the largest number and the trailer stay.
pub open spec fn dictionary_changed(
    old: PdfDocument,
    new: PdfDocument,
    id: ObjectId,
    changed: spec_fn(Seq<(Vec<u8>, PdfObject)>, Seq<(Vec<u8>, PdfObject)>) -> bool,
) -> bool {
    &&& new.max_id == old.max_id
    &&& new.trailer == old.trailer
    &&& match resolve(old.objects@, id, 0) {
        Err(_) => new.objects@ == old.objects@,
        Ok((t, o)) => match o {
            PdfObject::Dictionary(d) => {
                let i = object_position(old.objects@, t)->Some_0;
                &&& new.objects@.len() == old.objects@.len()
                &&& forall|j: int| 0 <= j < old.objects@.len() && j != i ==> new.objects@[j] == old.objects@[j]
                &&& new.objects@[i].0 == t
                &&& new.objects@[i].1 matches PdfObject::Dictionary(nd)
                &&& changed(d.entries@, nd.entries@)
            },
            _ => new.objects@ == old.objects@,
        },
    }
}

/// The outcome of a change through `get_object_mut`: the lookup's error, if any.
pub open spec fn lookup_outcome(doc: PdfDocument, id: ObjectId) -> Result<(), ObjectError> {
    match resolve(doc.objects@, id, 0) {
        Ok(_) => Ok(()),
        Err(e) => Err(e),
    }
}

impl PdfStream {
    /// A stream holding `content`, whose dictionary records only its length
    /// (`lopdf::Stream::new(Dictionary::new(), content)`).
    pub fn new(content: Vec<u8>) -> (s: PdfStream)
        ensures
            is_fresh_stream(PdfObject::Stream(s), content@),
    {
        let n = content.len() as i64;
        let mut dict = PdfDict::new();
        dict.set(vec![76u8, 101u8, 110u8, 103u8, 116u8, 104u8], PdfObject::Scalar(make_integer_object(n)));
        proof {
            assert(key_position(Seq::<(Vec<u8>, PdfObject)>::empty(), length_key()) is None);
        }
        PdfStream { dict, content, allows_compression: true }
    }
}

impl PdfDocument {
    /// The position of the object stored under `id`, if any.
    pub fn position(&self, id: ObjectId) -> (r: Option<usize>)
        ensures
            match r {
                Some(i) => object_position(self.objects@, id) == Some(i as int),
                None => object_position(self.objects@, id) is None,
            },
    {
        let mut i: usize = self.objects.len();
        while i > 0
            invariant
                i <= self.objects@.len(),
                forall|j: int| i <= j < self.objects@.len() ==> self.objects@[j].0 != id,
            decreases i,
        {
            i = i - 1;
            let (oid, _) = &self.objects[i];
            if oid.0 == id.0 && oid.1 == id.1 {
                proof {
                    lemma_last_id_unique(self.objects@, id, i as int);
                }
                return Some(i);
            }
        }
        assert(!exists|k: int| is_last_id(self.objects@, id, k));
        None
    }

    /// Follows `id` to the object at the end of its chain of references,
    /// as `lopdf::Document::get_object` does; also gives that object's
    /// position.
    pub fn resolve(&self, id: ObjectId) -> (r: Result<(usize, &PdfObject), ObjectError>)
        ensures
            match r {
                Ok((i, o)) => {
                    &&& 0 <= i < self.objects@.len()
                    &&& self.objects@[i as int].1 == *o
                    &&& object_position(self.objects@, self.objects@[i as int].0) == Some(i as int)
                    &&& resolve(self.objects@, id, 0) == Ok::<(ObjectId, PdfObject), ObjectError>(
                        (self.objects@[i as int].0, *o),
                    )
                },
                Err(e) => resolve(self.objects@, id, 0) == Err::<(ObjectId, PdfObject), ObjectError>(e),
            },
    {
        let mut cur = id;
        let mut hops: usize = 0;
        loop
            invariant
                hops <= DEREF_LIMIT + 1,
                resolve(self.objects@, id, 0) == resolve(self.objects@, cur, hops as nat),
            decreases DEREF_LIMIT + 1 - hops,
        {
            match self.position(cur) {
                None => {
                    return Err(ObjectError::ObjectNotFound);
                },
                Some(i) => {
                    if hops > DEREF_LIMIT {
                        return Err(ObjectError::ReferenceLimit);
                    }
                    let o = &self.objects[i].1;
                    match o {
                        PdfObject::Reference(next) => {
                            cur = *next;
                            hops = hops + 1;
                        },
                        _ => {
                            return Ok((i, o));
                        },
                    }
                },
            }
        }
    }

    /// The object that `id` leads to (`lopdf::Document::get_object`).
    pub fn get_object(&self, id: ObjectId) -> (r: Result<&PdfObject, ObjectError>)
        ensures
            match r {
                Ok(o) => get_obj(*self, id) == Ok::<PdfObject, ObjectError>(*o),
                Err(e) => get_obj(*self, id) == Err::<PdfObject, ObjectError>(e),
            },
    {
        match self.resolve(id) {
            Ok((_, o)) => Ok(o),
            Err(e) => Err(e),
        }
    }
    /// Adds `o` under the next object number (`lopdf::Document::add_object`).
    pub fn add_object(&mut self, o: PdfObject) -> (id: ObjectId)
        ensures
            id == (next_number(old(self).max_id), 0u16),
            final(self).max_id == id.0,
            final(self).objects@ == old(self).objects@.push((id, o)),
            final(self).trailer == old(self).trailer,
            dictionaries_keyed_once(*old(self)) && (o matches PdfObject::Dictionary(d) ==> keys_unique(d.entries@))
                ==> dictionaries_keyed_once(*final(self)),
    {
        let n: u32 = if self.max_id == u32::MAX {
            0
        } else {
            self.max_id + 1
        };
        self.max_id = n;
        let id: ObjectId = (n, 0u16);
        let ghost before = self.objects@;
        self.objects.push((id, o));
        proof {
            assert forall|j: int| 0 <= j < before.len() implies self.objects@[j] == before[j] by {}
        }
        id
    }

    /// Takes out the object at position `i`, applies nothing, and gives it back
    /// together with a placeholder left in its place.
    fn take_at(&mut self, i: usize) -> (r: (ObjectId, PdfObject))
        requires
            i < old(self).objects@.len(),
        ensures
            r == old(self).objects@[i as int],
            final(self).objects@.len() == old(self).objects@.len(),
            forall|j: int| 0 <= j < old(self).objects@.len() && j != i ==> final(self).objects@[j] == old(self).objects@[j],
            final(self).max_id == old(self).max_id,
            final(self).trailer == old(self).trailer,
    {
        let mut slot: (ObjectId, PdfObject) = ((0u32, 0u16), PdfObject::Array(Vec::new()));
        self.objects.set_and_swap(i, &mut slot);
        slot
    }

    /// Stores `value` under `key` in the dictionary that `id` leads to, if
    /// it leads to one (`get_object_mut`, then `Dictionary::set`).
    pub fn set_in_dictionary(&mut self, id: ObjectId, key: Vec<u8>, value: PdfObject) -> (r: Result<(), ObjectError>)
        ensures
            r == lookup_outcome(*old(self), id),
            dictionary_changed(
                *old(self),
                *final(self),
                id,
                |a: Seq<(Vec<u8>, PdfObject)>, b: Seq<(Vec<u8>, PdfObject)>| entries_set(a, b, key@, value),
            ),
            dictionaries_keyed_once(*old(self)) ==> dictionaries_keyed_once(*final(self)),
    {
        let i = match self.resolve(id) {
            Err(e) => {
                return Err(e);
            },
            Ok((i, _)) => i,
        };
        proof {
            lemma_resolve_ok(self.objects@, id, 0);
        }
        let (oid, obj) = self.take_at(i);
        let updated = match obj {
            PdfObject::Dictionary(mut d) => {
                d.set(key, value);
                PdfObject::Dictionary(d)
            },
            other => other,
        };
        self.objects.set(i, (oid, updated));
        proof {
            if !(old(self).objects@[i as int].1 is Dictionary) {
                assert(self.objects@ =~= old(self).objects@);
            }
            if dictionaries_keyed_once(*old(self)) {
                assert forall|j: int| 0 <= j < self.objects@.len() implies ((#[trigger] self.objects@[j]).1 matches PdfObject::Dictionary(nd)
                    ==> keys_unique(nd.entries@)) by {
                    if j != i {
                        assert(self.objects@[j] == old(self).objects@[j]);
                    } else {
                        assert(old(self).objects@[j] == old(self).objects@[j]);
                    }
                }
            }
        }
        Ok(())
    }

    /// Removes `key` from the dictionary that `id` leads to, if it leads to
    /// one (`get_object_mut`, then `Dictionary::remove`).
    pub fn remove_from_dictionary(&mut self, id: ObjectId, key: &[u8]) -> (r: Result<(), ObjectError>)
        ensures
            r == lookup_outcome(*old(self), id),
            dictionary_changed(
                *old(self),
                *final(self),
                id,
                |a: Seq<(Vec<u8>, PdfObject)>, b: Seq<(Vec<u8>, PdfObject)>| b == entries_remove(a, key@),
            ),
            dictionaries_keyed_once(*old(self)) ==> dictionaries_keyed_once(*final(self)),
    {
        let i = match self.resolve(id) {
            Err(e) => {
                return Err(e);
            },
            Ok((i, _)) => i,
        };
        proof {
            lemma_resolve_ok(self.objects@, id, 0);
        }
        let (oid, obj) = self.take_at(i);
        let updated = match obj {
            PdfObject::Dictionary(mut d) => {
                d.remove(key);
                PdfObject::Dictionary(d)
            },
            other => other,
        };
        self.objects.set(i, (oid, updated));
        proof {
            if !(old(self).objects@[i as int].1 is Dictionary) {
                assert(self.objects@ =~= old(self).objects@);
            }
            if dictionaries_keyed_once(*old(self)) {
                assert forall|j: int| 0 <= j < self.objects@.len() implies ((#[trigger] self.objects@[j]).1 matches PdfObject::Dictionary(nd)
                    ==> keys_unique(nd.entries@)) by {
                    if j != i {
                        assert(self.objects@[j] == old(self).objects@[j]);
                    } else {
                        assert(old(self).objects@[j] == old(self).objects@[j]);
                    }
                }
            }
        }
        Ok(())
    }
}


} // verus!
