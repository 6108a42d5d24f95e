//! What flattening guarantees across a whole document.
use vstd::prelude::*;
use crate::i18n::Language;
use crate::model::{
    dictionary_changed, entries_get, entries_remove, entries_set, get_obj, is_first_key,
    is_last_id, key_position, keys_unique, lemma_first_key_unique, lemma_last_id_unique,
    lemma_resolve_ok, length_key, lookup_outcome, is_fresh_stream, next_number, object_position, resolve, stored_object, ObjectError,
    ObjectId, PdfDocument, PdfObject, DEREF_LIMIT, dictionaries_keyed_once, lemma_no_position,
    lemma_remove_unique, lemma_set_unique,
};
use crate::pdf::flatten::{
    annotations_removed, annots_key, appearances, contents_key, contents_linked,
    content_replaced, flatten_page_outcome, page_annotations, page_content, pages_flattened,
    pages_run, stream_added, stream_bytes, flattened_content, content_of, content_fuel, appearance_of,
};
use crate::pdf::outside::filter_key;
use crate::pdf::types::{annotation_total, page_annotation_count};
use crate::pdf::flatten::{content_within, items_content};

verus! {

// ---------------------------------------------------------------------
// Dictionaries
// ---------------------------------------------------------------------

/// Setting a key stores the value under it.
proof fn lemma_get_after_set(
    old: Seq<(Vec<u8>, PdfObject)>,
    new: Seq<(Vec<u8>, PdfObject)>,
    key: Seq<u8>,
    value: PdfObject,
)
    requires
        entries_set(old, new, key, value),
    ensures
        entries_get(new, key) == Some(value),
{
    match key_position(old, key) {
        Some(i) => {
            assert(is_first_key(old, key, i));
            assert(is_first_key(new, key, i));
            lemma_first_key_unique(new, key, i);
        },
        None => {
            lemma_no_position(old, key);
            let n: int = old.len() as int;
            assert forall|j: int| 0 <= j < n implies new[j].0@ != key by {
                assert(new[j] == new.drop_last()[j]);
            }
            assert(is_first_key(new, key, n));
            lemma_first_key_unique(new, key, n);
        },
    }
}

/// Removing one key of a dictionary that holds each key once leaves the
/// value under any other key.
proof fn lemma_get_after_remove_other(entries: Seq<(Vec<u8>, PdfObject)>, gone: Seq<u8>, key: Seq<u8>)
    requires
        keys_unique(entries),
        gone != key,
    ensures
        entries_get(entries_remove(entries, gone), key) == entries_get(entries, key),
{
    let new = entries_remove(entries, gone);
    lemma_remove_unique(entries, gone);
    match key_position(entries, gone) {
        None => {},
        Some(i) => {
            assert(is_first_key(entries, gone, i));
            let last: int = entries.len() - 1;
            assert(new.len() == last);
            match key_position(entries, key) {
                Some(p) => {
                    assert(is_first_key(entries, key, p));
                    assert(p != i);
                    let q: int = if p == last { i } else { p };
                    assert(new[q] == entries[p]);
                    assert forall|j: int| 0 <= j < q implies new[j].0@ != key by {
                        assert(new[j].0@ != new[q].0@);
                    }
                    assert(is_first_key(new, key, q));
                    lemma_first_key_unique(new, key, q);
                },
                None => {
                    lemma_no_position(entries, key);
                    assert forall|j: int| 0 <= j < new.len() implies new[j].0@ != key by {
                        if j == i {
                            assert(new[j] == entries[last]);
                        } else {
                            assert(new[j] == entries[j]);
                        }
                    }
                    if key_position(new, key) is Some {
                        let k: int = key_position(new, key)->Some_0;
                        assert(is_first_key(new, key, k));
                    }
                },
            }
        },
    }
}

// ---------------------------------------------------------------------
// Lookups across changes
// ---------------------------------------------------------------------

/// Positions depend on the ids alone.
proof fn lemma_positions_same_ids(
    old: Seq<(ObjectId, PdfObject)>,
    new: Seq<(ObjectId, PdfObject)>,
    x: ObjectId,
)
    requires
        new.len() == old.len(),
        forall|j: int| 0 <= j < old.len() ==> new[j].0 == old[j].0,
    ensures
        object_position(new, x) == object_position(old, x),
{
    if let Some(p) = object_position(old, x) {
        assert(is_last_id(old, x, p));
        assert(is_last_id(new, x, p));
        lemma_last_id_unique(new, x, p);
    } else {
        if let Some(q) = object_position(new, x) {
            assert(is_last_id(new, x, q));
            assert(is_last_id(old, x, q));
        }
    }
}

/// Changing a non-reference object into another leaves every successful
/// lookup as it was, but that the lookups ending at it now find the new one.
proof fn lemma_resolve_after_change(
    old: Seq<(ObjectId, PdfObject)>,
    new: Seq<(ObjectId, PdfObject)>,
    i: int,
    id: ObjectId,
    hops: nat,
)
    requires
        0 <= i < old.len(),
        new.len() == old.len(),
        forall|j: int| 0 <= j < old.len() && j != i ==> new[j] == old[j],
        new[i].0 == old[i].0,
        object_position(old, old[i].0) == Some(i),
        !(old[i].1 is Reference),
        !(new[i].1 is Reference),
        resolve(old, id, hops) is Ok,
    ensures
        resolve(new, id, hops) == if resolve(old, id, hops)->Ok_0.0 == old[i].0 {
            Ok((old[i].0, new[i].1))
        } else {
            resolve(old, id, hops)
        },
    decreases DEREF_LIMIT + 1 - hops,
{
    assert forall|j: int| 0 <= j < old.len() implies new[j].0 == old[j].0 by {}
    lemma_positions_same_ids(old, new, id);
    let p = object_position(old, id)->Some_0;
    assert(is_last_id(old, id, p));
    if p == i {
    } else {
        assert(stored_object(new, id) == stored_object(old, id));
        match old[p].1 {
            PdfObject::Reference(next) => {
                lemma_resolve_after_change(old, new, i, next, hops + 1);
            },
            _ => {
                if id == old[i].0 {
                    assert(p == i);
                }
            },
        }
    }
}

/// Adding an object under a fresh id leaves every successful lookup as it was.
proof fn lemma_resolve_after_push(
    old: Seq<(ObjectId, PdfObject)>,
    e: (ObjectId, PdfObject),
    id: ObjectId,
    hops: nat,
)
    requires
        forall|j: int| 0 <= j < old.len() ==> old[j].0 != e.0,
        resolve(old, id, hops) is Ok,
    ensures
        resolve(old.push(e), id, hops) == resolve(old, id, hops),
    decreases DEREF_LIMIT + 1 - hops,
{
    let new = old.push(e);
    let p = object_position(old, id)->Some_0;
    assert(is_last_id(old, id, p));
    assert(id != e.0);
    assert(is_last_id(new, id, p));
    lemma_last_id_unique(new, id, p);
    match old[p].1 {
        PdfObject::Reference(next) => {
            if hops <= DEREF_LIMIT {
                lemma_resolve_after_push(old, e, next, hops + 1);
            }
        },
        _ => {},
    }
}

/// Changing a non-reference object into another leaves every failed
/// lookup failing as it did.
proof fn lemma_resolve_err_after_change(
    old: Seq<(ObjectId, PdfObject)>,
    new: Seq<(ObjectId, PdfObject)>,
    i: int,
    id: ObjectId,
    hops: nat,
)
    requires
        0 <= i < old.len(),
        new.len() == old.len(),
        forall|j: int| 0 <= j < old.len() && j != i ==> new[j] == old[j],
        new[i].0 == old[i].0,
        object_position(old, old[i].0) == Some(i),
        !(old[i].1 is Reference),
        !(new[i].1 is Reference),
        resolve(old, id, hops) is Err,
    ensures
        resolve(new, id, hops) == resolve(old, id, hops),
    decreases DEREF_LIMIT + 1 - hops,
{
    assert forall|j: int| 0 <= j < old.len() implies new[j].0 == old[j].0 by {}
    lemma_positions_same_ids(old, new, id);
    if let Some(p) = object_position(old, id) {
        assert(is_last_id(old, id, p));
        if hops <= DEREF_LIMIT {
            if p == i {
                assert(resolve(old, id, hops) is Ok);
            } else {
                assert(stored_object(new, id) == stored_object(old, id));
                if let PdfObject::Reference(next) = old[p].1 {
                    lemma_resolve_err_after_change(old, new, i, next, hops + 1);
                }
            }
        }
    }
}

/// Every lookup in `new` finds what it found in `old`, but that a
/// dictionary may have become another dictionary.
pub open spec fn lookups_kept_but_dictionaries(old: PdfDocument, new: PdfDocument) -> bool {
    forall|x: ObjectId|
        #[trigger] get_obj(new, x) == get_obj(old, x) || (get_obj(old, x) matches Ok(PdfObject::Dictionary(_))
            && get_obj(new, x) matches Ok(PdfObject::Dictionary(_)))
}

/// A dictionary change keeps every lookup but for dictionaries.
proof fn lemma_dictionary_change_lookups(
    old: PdfDocument,
    new: PdfDocument,
    id: ObjectId,
    changed: spec_fn(Seq<(Vec<u8>, PdfObject)>, Seq<(Vec<u8>, PdfObject)>) -> bool,
)
    requires
        dictionary_changed(old, new, id, changed),
    ensures
        lookups_kept_but_dictionaries(old, new),
{
    assert forall|x: ObjectId|
        #[trigger] get_obj(new, x) == get_obj(old, x) || (get_obj(old, x) matches Ok(PdfObject::Dictionary(_))
            && get_obj(new, x) matches Ok(PdfObject::Dictionary(_))) by {
        if resolve(old.objects@, x, 0) is Ok {
            lemma_dictionary_change(old, new, id, changed, x);
            lemma_resolve_ok(old.objects@, x, 0);
            lemma_resolve_ok(old.objects@, id, 0);
        } else {
            if let Ok((t, PdfObject::Dictionary(d))) = resolve(old.objects@, id, 0) {
                lemma_resolve_ok(old.objects@, id, 0);
                let i: int = object_position(old.objects@, t)->Some_0;
                assert(is_last_id(old.objects@, t, i));
                lemma_resolve_err_after_change(old.objects@, new.objects@, i, x, 0);
            }
        }
    }
}

/// Reading content items gives the same where lookups are kept but for
/// dictionaries, which reading skips.
proof fn lemma_items_kept(old: PdfDocument, new: PdfDocument, items: Seq<PdfObject>, fuel: nat)
    requires
        lookups_kept_but_dictionaries(old, new),
    ensures
        items_content(new, items, fuel) == items_content(old, items, fuel),
    decreases fuel, items.len(),
{
    if items.len() > 0 {
        lemma_items_kept(old, new, items.drop_last(), fuel);
        if let PdfObject::Reference(id) = items.last() {
            assert(get_obj(new, id) == get_obj(old, id) || (get_obj(old, id) matches Ok(PdfObject::Dictionary(_))
                && get_obj(new, id) matches Ok(PdfObject::Dictionary(_))));
            if let Ok(PdfObject::Array(inner)) = get_obj(old, id) {
                if fuel > 0 {
                    lemma_items_kept(old, new, inner@, (fuel - 1) as nat);
                }
            }
        }
    }
}

/// Reading content gives the same where lookups are kept but for
/// dictionaries.
proof fn lemma_content_kept(old: PdfDocument, new: PdfDocument, obj: PdfObject, fuel: nat)
    requires
        lookups_kept_but_dictionaries(old, new),
    ensures
        content_within(new, obj, fuel) == content_within(old, obj, fuel),
    decreases fuel,
{
    match obj {
        PdfObject::Array(items) => {
            lemma_items_kept(old, new, items@, fuel);
            assert(items_content(new, items@, fuel) == items_content(old, items@, fuel));
        },
        PdfObject::Reference(id) => {
            assert(get_obj(new, id) == get_obj(old, id) || (get_obj(old, id) matches Ok(PdfObject::Dictionary(_))
                && get_obj(new, id) matches Ok(PdfObject::Dictionary(_))));
            if let Ok(o) = get_obj(old, id) {
                if fuel > 0 {
                    if get_obj(new, id) == get_obj(old, id) {
                        lemma_content_kept(old, new, o, (fuel - 1) as nat);
                    } else {
                        let n = get_obj(new, id)->Ok_0;
                        assert(content_within(new, n, (fuel - 1) as nat) == Some(Ok::<Seq<u8>, ObjectError>(Seq::empty())));
                        assert(content_within(old, o, (fuel - 1) as nat) == Some(Ok::<Seq<u8>, ObjectError>(Seq::empty())));
                    }
                }
            }
        },
        _ => {},
    }
}

/// The id that the next added object gets (`next_number` of the largest,
/// generation 0) is not in use.
pub open spec fn next_id_free(doc: PdfDocument) -> bool {
    forall|j: int| 0 <= j < doc.objects@.len() ==> (#[trigger] doc.objects@[j]).0 != (next_number(doc.max_id), 0u16)
}

/// How a dictionary change made through `id` looks for a lookup that
/// succeeded before it.
proof fn lemma_dictionary_change(
    old: PdfDocument,
    new: PdfDocument,
    id: ObjectId,
    changed: spec_fn(Seq<(Vec<u8>, PdfObject)>, Seq<(Vec<u8>, PdfObject)>) -> bool,
    q: ObjectId,
)
    requires
        dictionary_changed(old, new, id, changed),
        resolve(old.objects@, q, 0) is Ok,
    ensures
        resolve(new.objects@, q, 0) is Ok,
        match (resolve(old.objects@, id, 0), resolve(old.objects@, q, 0)) {
            (Ok((t, PdfObject::Dictionary(d))), Ok((tq, _))) => if tq == t {
                resolve(new.objects@, q, 0) matches Ok((t2, PdfObject::Dictionary(nd))) && t2 == t
                    && changed(d.entries@, nd.entries@)
            } else {
                resolve(new.objects@, q, 0) == resolve(old.objects@, q, 0)
            },
            _ => resolve(new.objects@, q, 0) == resolve(old.objects@, q, 0),
        },
{
    lemma_resolve_ok(old.objects@, q, 0);
    match resolve(old.objects@, id, 0) {
        Ok((t, o)) => {
            lemma_resolve_ok(old.objects@, id, 0);
            match o {
                PdfObject::Dictionary(d) => {
                    let i = object_position(old.objects@, t)->Some_0;
                    assert(is_last_id(old.objects@, t, i));
                    lemma_resolve_after_change(old.objects@, new.objects@, i, q, 0);
                },
                _ => {},
            }
        },
        Err(_) => {},
    }
}

/// A dictionary change through `id` keeps each dictionary's keys once when
/// the change does.
proof fn lemma_dictionary_change_keyed(
    old: PdfDocument,
    new: PdfDocument,
    id: ObjectId,
    changed: spec_fn(Seq<(Vec<u8>, PdfObject)>, Seq<(Vec<u8>, PdfObject)>) -> bool,
)
    requires
        dictionary_changed(old, new, id, changed),
        dictionaries_keyed_once(old),
        forall|a: Seq<(Vec<u8>, PdfObject)>, b: Seq<(Vec<u8>, PdfObject)>|
            keys_unique(a) && #[trigger] changed(a, b) ==> keys_unique(b),
    ensures
        dictionaries_keyed_once(new),
{
    match resolve(old.objects@, id, 0) {
        Ok((t, o)) => {
            lemma_resolve_ok(old.objects@, id, 0);
            match o {
                PdfObject::Dictionary(d) => {
                    let i = object_position(old.objects@, t)->Some_0;
                    assert(is_last_id(old.objects@, t, i));
                    assert(old.objects@[i].1 == o);
                    assert forall|j: int| 0 <= j < new.objects@.len() implies ((#[trigger] new.objects@[j]).1 matches PdfObject::Dictionary(nd)
                        ==> keys_unique(nd.entries@)) by {
                        if j != i {
                            assert(new.objects@[j] == old.objects@[j]);
                        } else {
                            assert(keys_unique(d.entries@));
                        }
                    }
                },
                _ => {},
            }
        },
        Err(_) => {},
    }
}

// ---------------------------------------------------------------------
// One page
// ---------------------------------------------------------------------

/// The id a successful lookup ends at.
pub open spec fn target_of(doc: PdfDocument, id: ObjectId) -> ObjectId {
    resolve(doc.objects@, id, 0)->Ok_0.0
}

/// Adding an object that is neither a reference nor a dictionary keeps
/// every successful lookup successful, and a lookup that now ends at a
/// dictionary found the same before.
proof fn lemma_push_keeps_dictionaries(
    old: Seq<(ObjectId, PdfObject)>,
    e: (ObjectId, PdfObject),
    id: ObjectId,
    hops: nat,
)
    requires
        !(e.1 is Reference),
        !(e.1 is Dictionary),
    ensures
        resolve(old, id, hops) is Ok ==> resolve(old.push(e), id, hops) is Ok,
        resolve(old.push(e), id, hops) matches Ok((_, PdfObject::Dictionary(_))) ==> resolve(old.push(e), id, hops)
            == resolve(old, id, hops),
    decreases DEREF_LIMIT + 1 - hops,
{
    let new = old.push(e);
    let last: int = old.len() as int;
    if id == e.0 {
        assert(is_last_id(new, id, last));
        lemma_last_id_unique(new, id, last);
        if resolve(old, id, hops) is Ok {
            lemma_resolve_ok(old, id, hops);
        }
    } else {
        if let Some(p) = object_position(old, id) {
            assert(is_last_id(old, id, p));
            assert(is_last_id(new, id, p));
            lemma_last_id_unique(new, id, p);
            if hops <= DEREF_LIMIT {
                if let PdfObject::Reference(next) = old[p].1 {
                    lemma_push_keeps_dictionaries(old, e, next, hops + 1);
                }
            }
        } else {
            if object_position(new, id) is Some {
                let q: int = object_position(new, id)->Some_0;
                assert(is_last_id(new, id, q));
                assert(new[last].0 == e.0);
                assert(q != last);
                assert forall|j: int| q < j < old.len() implies old[j].0 != id by {
                    assert(new[j] == old[j]);
                }
                assert(new[q] == old[q]);
                assert(is_last_id(old, id, q));
            }
        }
    }
}

/// Setting one key leaves the value under any other key.
proof fn lemma_get_after_set_other(
    old: Seq<(Vec<u8>, PdfObject)>,
    new: Seq<(Vec<u8>, PdfObject)>,
    key: Seq<u8>,
    value: PdfObject,
    other: Seq<u8>,
)
    requires
        entries_set(old, new, key, value),
        key != other,
    ensures
        entries_get(new, other) == entries_get(old, other),
{
    let n: int = old.len() as int;
    let same_keys = forall|j: int| 0 <= j < n ==> new[j].0@ == old[j].0@;
    match key_position(old, key) {
        Some(i) => {
            assert(is_first_key(old, key, i));
            assert forall|j: int| 0 <= j < n implies new[j].0@ == old[j].0@ by {}
        },
        None => {
            assert forall|j: int| 0 <= j < n implies new[j].0@ == old[j].0@ by {
                assert(new[j] == new.drop_last()[j]);
            }
        },
    }
    match key_position(old, other) {
        Some(p) => {
            assert(is_first_key(old, other, p));
            assert(is_first_key(new, other, p));
            lemma_first_key_unique(new, other, p);
            if let Some(i) = key_position(old, key) {
                assert(is_first_key(old, key, i));
                assert(p != i);
            } else {
                assert(new[p] == new.drop_last()[p]);
            }
        },
        None => {
            lemma_no_position(old, other);
            if key_position(new, other) is Some {
                let k: int = key_position(new, other)->Some_0;
                assert(is_first_key(new, other, k));
                if k < n {
                    assert(old[k].0@ == other);
                }
            }
        },
    }
}

/// A lookup's annotation count stays zero when a stream is added.
proof fn lemma_zero_after_push(old: PdfDocument, added: PdfDocument, content: Seq<u8>, q: ObjectId)
    requires
        stream_added(old, added, content),
        page_annotation_count(old, q) == 0,
    ensures
        page_annotation_count(added, q) == 0,
{
    let e = added.objects@.last();
    assert(added.objects@ =~= old.objects@.push(e));
    lemma_push_keeps_dictionaries(old.objects@, e, q, 0);
}

/// Adding a stream keeps each dictionary's keys once.
proof fn lemma_push_keyed(old: PdfDocument, added: PdfDocument, content: Seq<u8>)
    requires
        stream_added(old, added, content),
    ensures
        dictionaries_keyed_once(old) ==> dictionaries_keyed_once(added),
{
    if dictionaries_keyed_once(old) {
        assert forall|j: int| 0 <= j < added.objects@.len() implies ((#[trigger] added.objects@[j]).1 matches PdfObject::Dictionary(nd)
            ==> keys_unique(nd.entries@)) by {
            if j < old.objects@.len() {
                assert(added.objects@[j] == old.objects@[j]);
            }
        }
    }
}

/// A lookup's annotation count stays zero through a dictionary change
/// that leaves `Annots` as it was or takes it away.
proof fn lemma_zero_after_change(
    old: PdfDocument,
    new: PdfDocument,
    id: ObjectId,
    changed: spec_fn(Seq<(Vec<u8>, PdfObject)>, Seq<(Vec<u8>, PdfObject)>) -> bool,
    q: ObjectId,
)
    requires
        dictionary_changed(old, new, id, changed),
        dictionaries_keyed_once(old),
        forall|a: Seq<(Vec<u8>, PdfObject)>, b: Seq<(Vec<u8>, PdfObject)>|
            keys_unique(a) && #[trigger] changed(a, b) ==> entries_get(b, annots_key()) is None
                || entries_get(b, annots_key()) == entries_get(a, annots_key()),
        page_annotation_count(old, q) == 0,
    ensures
        page_annotation_count(new, q) == 0,
{
    lemma_dictionary_change_lookups(old, new, id, changed);
    assert(get_obj(new, q) == get_obj(old, q) || (get_obj(old, q) matches Ok(PdfObject::Dictionary(_))
        && get_obj(new, q) matches Ok(PdfObject::Dictionary(_))));
    if resolve(old.objects@, q, 0) is Ok {
        lemma_dictionary_change(old, new, id, changed, q);
        lemma_resolve_ok(old.objects@, q, 0);
        lemma_resolve_ok(old.objects@, id, 0);
        if let Ok((t, PdfObject::Dictionary(d))) = resolve(old.objects@, id, 0) {
            let i: int = object_position(old.objects@, t)->Some_0;
            assert(is_last_id(old.objects@, t, i));
            assert(keys_unique(d.entries@));
        }
    }
}

/// The documents a successful flattening goes through keep every lookup's
/// zero annotation count, and each dictionary's keys once.
proof fn lemma_zero_after_flatten(old: PdfDocument, new: PdfDocument, page_id: ObjectId, lang: Language, q: ObjectId)
    requires
        flatten_page_outcome(old, new, page_id, lang, Ok(())),
        dictionaries_keyed_once(old),
        page_annotation_count(old, q) == 0,
    ensures
        page_annotation_count(new, q) == 0,
        dictionaries_keyed_once(new),
{
    let page = get_obj(old, page_id)->Ok_0;
    let remove = |a: Seq<(Vec<u8>, PdfObject)>, b: Seq<(Vec<u8>, PdfObject)>| b == entries_remove(a, annots_key());
    assert forall|a: Seq<(Vec<u8>, PdfObject)>, b: Seq<(Vec<u8>, PdfObject)>|
        keys_unique(a) && #[trigger] remove(a, b) implies keys_unique(b) && entries_get(b, annots_key()) is None by {
        lemma_remove_unique(a, annots_key());
    }
    if let Some(items) = page_annotations(page) {
        let data = appearances(old, items);
        if data.len() == 0 {
            lemma_dictionary_change_keyed(old, new, page_id, remove);
            lemma_zero_after_change(old, new, page_id, remove, q);
        } else {
            let content = flattened_content(page_content(old, page)->Ok_0, data);
            let (added, linked) = lemma_replaced_steps(old, new, page_id, lang, content);
            lemma_zero_after_push(old, added, content, q);
            lemma_push_keyed(old, added, content);
            let link = |a: Seq<(Vec<u8>, PdfObject)>, b: Seq<(Vec<u8>, PdfObject)>|
                entries_set(a, b, contents_key(), PdfObject::Reference((added.max_id, 0u16)));
            assert forall|a: Seq<(Vec<u8>, PdfObject)>, b: Seq<(Vec<u8>, PdfObject)>|
                keys_unique(a) && #[trigger] link(a, b) implies keys_unique(b) && entries_get(b, annots_key())
                == entries_get(a, annots_key()) by {
                lemma_set_unique(a, b, contents_key(), PdfObject::Reference((added.max_id, 0u16)));
                assert(contents_key()[0] != annots_key()[0]);
                lemma_get_after_set_other(a, b, contents_key(), PdfObject::Reference((added.max_id, 0u16)), annots_key());
            }
            lemma_dictionary_change_keyed(added, linked, page_id, link);
            lemma_zero_after_change(added, linked, page_id, link, q);
            lemma_dictionary_change_keyed(linked, new, page_id, remove);
            lemma_zero_after_change(linked, new, page_id, remove, q);
        }
    }
}

/// A page that flattening succeeded on resolves afterwards and lists no
/// annotations; each dictionary still holds its keys once.
proof fn lemma_flattened_page_settles(old: PdfDocument, new: PdfDocument, page_id: ObjectId, lang: Language)
    requires
        flatten_page_outcome(old, new, page_id, lang, Ok(())),
        dictionaries_keyed_once(old),
    ensures
        get_obj(new, page_id) is Ok,
        page_annotations(get_obj(new, page_id)->Ok_0) is None,
        dictionaries_keyed_once(new),
{
    let page = get_obj(old, page_id)->Ok_0;
    lemma_resolve_ok(old.objects@, page_id, 0);
    let remove = |a: Seq<(Vec<u8>, PdfObject)>, b: Seq<(Vec<u8>, PdfObject)>| b == entries_remove(a, annots_key());
    assert forall|a: Seq<(Vec<u8>, PdfObject)>, b: Seq<(Vec<u8>, PdfObject)>|
        keys_unique(a) && #[trigger] remove(a, b) implies keys_unique(b) by {
        lemma_remove_unique(a, annots_key());
    }
    if let Some(items) = page_annotations(page) {
        let data = appearances(old, items);
        let t = target_of(old, page_id);
        let d = page->Dictionary_0;
        let i: int = object_position(old.objects@, t)->Some_0;
        assert(is_last_id(old.objects@, t, i));
        assert(keys_unique(d.entries@));
        if data.len() == 0 {
            lemma_dictionary_change_keyed(old, new, page_id, remove);
            lemma_dictionary_change(old, new, page_id, remove, page_id);
            lemma_remove_unique(d.entries@, annots_key());
        } else {
            let content = flattened_content(page_content(old, page)->Ok_0, data);
            let (added, linked) = lemma_replaced_steps(old, new, page_id, lang, content);
            lemma_push_keyed(old, added, content);
            let e = added.objects@.last();
            assert(added.objects@ =~= old.objects@.push(e));
            lemma_push_keeps_dictionaries(old.objects@, e, page_id, 0);
            let link = |a: Seq<(Vec<u8>, PdfObject)>, b: Seq<(Vec<u8>, PdfObject)>|
                entries_set(a, b, contents_key(), PdfObject::Reference((added.max_id, 0u16)));
            assert forall|a: Seq<(Vec<u8>, PdfObject)>, b: Seq<(Vec<u8>, PdfObject)>|
                keys_unique(a) && #[trigger] link(a, b) implies keys_unique(b) by {
                lemma_set_unique(a, b, contents_key(), PdfObject::Reference((added.max_id, 0u16)));
            }
            lemma_dictionary_change_keyed(added, linked, page_id, link);
            lemma_dictionary_change_keyed(linked, new, page_id, remove);
            lemma_dictionary_change(added, linked, page_id, link, page_id);
            lemma_dictionary_change(linked, new, page_id, remove, page_id);
            lemma_resolve_ok(added.objects@, page_id, 0);
            if let Ok((ta, PdfObject::Dictionary(da))) = resolve(added.objects@, page_id, 0) {
                assert(da == d);
                let nd1 = get_obj(linked, page_id)->Ok_0->Dictionary_0;
                assert(link(d.entries@, nd1.entries@));
                lemma_set_unique(d.entries@, nd1.entries@, contents_key(), PdfObject::Reference((added.max_id, 0u16)));
                lemma_remove_unique(nd1.entries@, annots_key());
            } else {
                assert(linked.objects@ == added.objects@);
                assert(new.objects@ == linked.objects@);
            }
        }
    }
}

/// A page that was flattened lists no annotations any more (given that the
/// document's dictionaries hold each key once, as a `lopdf::Dictionary`
/// always does).  A second flattening then changes nothing.
pub proof fn law_flattened_page_has_no_annotations(
    old: PdfDocument,
    new: PdfDocument,
    page_id: ObjectId,
    lang: Language,
)
    requires
        flatten_page_outcome(old, new, page_id, lang, Ok(())),
        dictionaries_keyed_once(old),
    ensures
        get_obj(new, page_id) is Ok,
        page_annotation_count(new, page_id) == 0,
        page_annotations(get_obj(new, page_id)->Ok_0) is None,
        flatten_page_outcome(new, new, page_id, lang, Ok(())),
{
    lemma_flattened_page_settles(old, new, page_id, lang);
    let page = get_obj(new, page_id)->Ok_0;
    match page {
        PdfObject::Dictionary(d) => {
            if let Some(PdfObject::Array(items)) = entries_get(d.entries@, annots_key()) {
                assert(items@.len() == 0);
            }
        },
        _ => {},
    }
}

/// A fresh stream stored last under its id reads back as its content.
proof fn lemma_fresh_stream_reads_back(doc: PdfDocument, id: ObjectId, last: int, content: Seq<u8>)
    requires
        is_last_id(doc.objects@, id, last),
        is_fresh_stream(doc.objects@[last].1, content),
    ensures
        content_of(doc, PdfObject::Reference(id)) == Ok::<Seq<u8>, ObjectError>(content),
{
    lemma_last_id_unique(doc.objects@, id, last);
    let s = doc.objects@[last].1->Stream_0;
    assert(resolve(doc.objects@, id, 0) == Ok::<(ObjectId, PdfObject), ObjectError>((id, doc.objects@[last].1)));
    assert(key_position(s.dict.entries@, filter_key()) is None) by {
        if key_position(s.dict.entries@, filter_key()) is Some {
            let k: int = key_position(s.dict.entries@, filter_key())->Some_0;
            assert(is_first_key(s.dict.entries@, filter_key(), k));
            assert(k == 0);
            assert(length_key()[0] != filter_key()[0]);
        }
    }
    assert(stream_bytes(s) == content);
    assert(content_within(doc, PdfObject::Stream(s), (doc.objects@.len() - 1) as nat) is Some);
}

/// Setting `Contents` and then removing `Annots` leaves `Contents` set.
proof fn lemma_contents_kept(
    d: Seq<(Vec<u8>, PdfObject)>,
    linked: Seq<(Vec<u8>, PdfObject)>,
    value: PdfObject,
)
    requires
        keys_unique(d),
        entries_set(d, linked, contents_key(), value),
    ensures
        entries_get(entries_remove(linked, annots_key()), contents_key()) == Some(value),
{
    lemma_get_after_set(d, linked, contents_key(), value);
    lemma_set_unique(d, linked, contents_key(), value);
    assert(contents_key()[0] != annots_key()[0]);
    lemma_get_after_remove_other(linked, annots_key(), contents_key());
}

/// The documents a successful flattening with appearances goes through:
/// the stream added, the page linked to it, then `Annots` removed.
proof fn lemma_replaced_steps(
    old: PdfDocument,
    new: PdfDocument,
    page_id: ObjectId,
    lang: Language,
    content: Seq<u8>,
) -> (r: (PdfDocument, PdfDocument))
    requires
        content_replaced(old, new, page_id, lang, Ok(()), content),
    ensures
        stream_added(old, r.0, content),
        contents_linked(r.0, r.1, page_id),
        annotations_removed(r.1, new, page_id, lang, Ok(())),
{
    choose|added: PdfDocument, linked: PdfDocument|
        {
            &&& stream_added(old, added, content)
            &&& contents_linked(added, linked, page_id)
            &&& match lookup_outcome(added, page_id) {
                Err(e) => new == linked && Ok::<(), Seq<char>>(()) == Err::<(), Seq<char>>(
                    crate::i18n::err_modify_page_text(lang, crate::pdf::outside::error_text(e)),
                ),
                Ok(_) => annotations_removed(linked, new, page_id, lang, Ok(())),
            }
        }
}

/// Removing `Annots` from a page leaves what its content reads as.
proof fn lemma_no_appearance_keeps_content(
    old: PdfDocument,
    new: PdfDocument,
    page_id: ObjectId,
    lang: Language,
    page: PdfObject,
)
    requires
        annotations_removed(old, new, page_id, lang, Ok(())),
        dictionaries_keyed_once(old),
        get_obj(old, page_id) == Ok::<PdfObject, ObjectError>(page),
        page is Dictionary,
    ensures
        get_obj(new, page_id) is Ok,
        page_content(new, get_obj(new, page_id)->Ok_0) == page_content(old, page),
{
    let remove = |a: Seq<(Vec<u8>, PdfObject)>, b: Seq<(Vec<u8>, PdfObject)>| b == entries_remove(a, annots_key());
    lemma_resolve_ok(old.objects@, page_id, 0);
    lemma_dictionary_change(old, new, page_id, remove, page_id);
    lemma_dictionary_change_lookups(old, new, page_id, remove);
    let t = target_of(old, page_id);
    let d = page->Dictionary_0;
    let i: int = object_position(old.objects@, t)->Some_0;
    assert(is_last_id(old.objects@, t, i));
    assert(keys_unique(d.entries@));
    let nd = get_obj(new, page_id)->Ok_0->Dictionary_0;
    assert(remove(d.entries@, nd.entries@));
    assert(contents_key()[0] != annots_key()[0]);
    lemma_get_after_remove_other(d.entries@, annots_key(), contents_key());
    if let Some(c) = entries_get(d.entries@, contents_key()) {
        lemma_content_kept(old, new, c, content_fuel(old));
        assert(content_fuel(new) == content_fuel(old));
    }
}

/// What a flattened page's content reads as: when some annotation had an
/// appearance, its former content followed by each appearance, each
/// between `q` and `Q`; otherwise its former content (given that the
/// document's dictionaries hold each key once and the id the next added
/// object gets is not in use).
#[verifier::spinoff_prover]
pub proof fn law_flattened_page_content(
    old: PdfDocument,
    new: PdfDocument,
    page_id: ObjectId,
    lang: Language,
)
    requires
        flatten_page_outcome(old, new, page_id, lang, Ok(())),
        dictionaries_keyed_once(old),
        next_id_free(old),
    ensures
        match get_obj(old, page_id) {
            Ok(page) => match page_annotations(page) {
                Some(items) => page_content(new, get_obj(new, page_id)->Ok_0) == if appearances(old, items).len() > 0 {
                    Ok::<Seq<u8>, ObjectError>(
                        flattened_content(page_content(old, page)->Ok_0, appearances(old, items)),
                    )
                } else {
                    page_content(old, page)
                },
                None => true,
            },
            Err(_) => true,
        },
{
    if let Ok(page) = get_obj(old, page_id) {
        if let Some(items) = page_annotations(page) {
            let data = appearances(old, items);
            if data.len() > 0 {
                let content = flattened_content(page_content(old, page)->Ok_0, data);
                let (added, linked) = lemma_replaced_steps(old, new, page_id, lang, content);
                let new_id = (added.max_id, 0u16);
                let e = added.objects@.last();
                let last: int = old.objects@.len() as int;
                // The stream is added under a fresh id, and the page resolves as before.
                assert(added.objects@ =~= old.objects@.push(e));
                assert forall|j: int| 0 <= j < old.objects@.len() implies old.objects@[j].0 != e.0 by {
                    assert(old.objects@[j] == old.objects@[j]);
                }
                lemma_resolve_ok(old.objects@, page_id, 0);
                lemma_resolve_after_push(old.objects@, e, page_id, 0);
                let t = target_of(old, page_id);
                let d = page->Dictionary_0;
                let i: int = object_position(old.objects@, t)->Some_0;
                assert(is_last_id(old.objects@, t, i));
                assert(keys_unique(d.entries@));
                // Linking, then removing `Annots`, keeps the new stream as `Contents`.
                let link = |a: Seq<(Vec<u8>, PdfObject)>, b: Seq<(Vec<u8>, PdfObject)>|
                    entries_set(a, b, contents_key(), PdfObject::Reference(new_id));
                lemma_dictionary_change(added, linked, page_id, link, page_id);
                let nd1 = get_obj(linked, page_id)->Ok_0->Dictionary_0;
                assert(link(d.entries@, nd1.entries@));
                let remove = |a: Seq<(Vec<u8>, PdfObject)>, b: Seq<(Vec<u8>, PdfObject)>| b == entries_remove(a, annots_key());
                lemma_dictionary_change(linked, new, page_id, remove, page_id);
                let nd2 = get_obj(new, page_id)->Ok_0->Dictionary_0;
                assert(remove(nd1.entries@, nd2.entries@));
                lemma_contents_kept(d.entries@, nd1.entries@, PdfObject::Reference(new_id));
                // The new stream is still stored last under its id.
                assert(is_last_id(added.objects@, t, i));
                lemma_last_id_unique(added.objects@, t, i);
                assert(linked.objects@[last] == added.objects@[last]);
                lemma_positions_same_ids(added.objects@, linked.objects@, t);
                assert(new.objects@[last] == linked.objects@[last]);
                assert(is_last_id(new.objects@, new_id, last));
                lemma_fresh_stream_reads_back(new, new_id, last, content);
            } else {
                lemma_no_appearance_keeps_content(old, new, page_id, lang, page);
            }
        }
    }
}

/// The items of `Annots` that have an appearance: a reference to an
/// annotation dictionary whose `AP` dictionary has an `N` stream.
pub open spec fn with_appearance(doc: PdfDocument, items: Seq<PdfObject>) -> Seq<PdfObject> {
    items.filter(has_appearance(doc))
}

/// Whether an item of `Annots` has an appearance.
pub open spec fn has_appearance(doc: PdfDocument) -> spec_fn(PdfObject) -> bool {
    |x: PdfObject| appearance_of(doc, x) is Some
}

/// The appearances flattened into a page are exactly those of the items
/// that have one, in `Annots` order: as many as there are such items, the
/// `i`-th being the appearance of the `i`-th such item.
pub proof fn law_appearances_are_every_appearance(doc: PdfDocument, items: Seq<PdfObject>)
    ensures
        appearances(doc, items).len() == with_appearance(doc, items).len(),
        forall|i: int|
            0 <= i < appearances(doc, items).len() ==> appearances(doc, items)[i] == appearance_of(
                doc,
                #[trigger] with_appearance(doc, items)[i],
            )->Some_0,
        forall|i: int|
            0 <= i < with_appearance(doc, items).len() ==> appearance_of(doc, #[trigger] with_appearance(doc, items)[i]) is Some,
    decreases items.len(),
{
    let pred = has_appearance(doc);
    reveal(Seq::filter);
    if items.len() > 0 {
        law_appearances_are_every_appearance(doc, items.drop_last());
        assert(items.filter(pred) == if pred(items.last()) {
            items.drop_last().filter(pred).push(items.last())
        } else {
            items.drop_last().filter(pred)
        });
    }
}

/// Each page's annotations count once: the total over some pages and then
/// one more is the total before plus that page's count, and the total over
/// two runs of pages is the sum of their totals.
pub proof fn law_annotation_total_adds_up(
    doc: PdfDocument,
    pages: Seq<(u32, ObjectId)>,
    more: Seq<(u32, ObjectId)>,
    p: (u32, ObjectId),
)
    ensures
        annotation_total(doc, pages.push(p)) == annotation_total(doc, pages) + page_annotation_count(doc, p.1),
        annotation_total(doc, seq![p]) == page_annotation_count(doc, p.1),
        annotation_total(doc, pages + more) == annotation_total(doc, pages) + annotation_total(doc, more),
    decreases more.len(),
{
    assert(pages.push(p).drop_last() =~= pages);
    assert(pages.push(p).last() == p);
    assert(seq![p].drop_last() =~= Seq::<(u32, ObjectId)>::empty());
    assert(seq![p].last() == p);
    assert(annotation_total(doc, Seq::<(u32, ObjectId)>::empty()) == 0);
    if more.len() == 0 {
        assert(pages + more =~= pages);
    } else {
        law_annotation_total_adds_up(doc, pages, more.drop_last(), p);
        assert((pages + more).drop_last() =~= pages + more.drop_last());
        assert((pages + more).last() == more.last());
    }
}

// ---------------------------------------------------------------------
// A whole document
// ---------------------------------------------------------------------

/// After the first `k` pages of a run, each dictionary still holds its
/// keys once and those pages list no annotations.
proof fn lemma_run_prefix(
    old: PdfDocument,
    states: Seq<PdfDocument>,
    pages: Seq<(u32, ObjectId)>,
    lang: Language,
    k: int,
)
    requires
        pages_run(states, pages, lang),
        states[0] == old,
        dictionaries_keyed_once(old),
        0 <= k <= pages.len(),
    ensures
        dictionaries_keyed_once(states[k]),
        forall|j: int| 0 <= j < k ==> page_annotation_count(states[k], #[trigger] pages[j].1) == 0,
    decreases k,
{
    if k > 0 {
        lemma_run_prefix(old, states, pages, lang, k - 1);
        let before = states[k - 1];
        let after = states[k];
        let j0 = k - 1;
        assert(flatten_page_outcome(states[j0], states[j0 + 1], pages[j0].1, lang, Ok(())));
        assert(j0 + 1 == k);
        law_flattened_page_has_no_annotations(before, after, pages[k - 1].1, lang);
        lemma_flattened_page_settles(before, after, pages[k - 1].1, lang);
        assert forall|j: int| 0 <= j < k implies page_annotation_count(after, #[trigger] pages[j].1) == 0 by {
            if j < k - 1 {
                lemma_zero_after_flatten(before, after, pages[k - 1].1, lang, pages[j].1);
            }
        }
    }
}

proof fn lemma_total_zero(doc: PdfDocument, pages: Seq<(u32, ObjectId)>)
    requires
        forall|j: int| 0 <= j < pages.len() ==> page_annotation_count(doc, #[trigger] pages[j].1) == 0,
    ensures
        annotation_total(doc, pages) == 0,
    decreases pages.len(),
{
    if pages.len() > 0 {
        let rest = pages.drop_last();
        assert forall|j: int| 0 <= j < rest.len() implies page_annotation_count(doc, #[trigger] rest[j].1) == 0 by {
            assert(rest[j] == pages[j]);
        }
        lemma_total_zero(doc, rest);
        assert(page_annotation_count(doc, pages[pages.len() - 1].1) == 0);
    }
}

/// Once every page of a document has been flattened without error, no page
/// lists any annotation: the document's annotation count is zero (given
/// that its dictionaries hold each key once, as a `lopdf::Dictionary`
/// always does).
pub proof fn law_flattened_document_has_no_annotations(
    old: PdfDocument,
    new: PdfDocument,
    pages: Seq<(u32, ObjectId)>,
    lang: Language,
)
    requires
        pages_flattened(old, new, pages, lang, Ok(())),
        dictionaries_keyed_once(old),
    ensures
        annotation_total(new, pages) == 0,
{
    let states = choose|states: Seq<PdfDocument>| pages_run(states, pages, lang) && states[0] == old && states.last() == new;
    lemma_run_prefix(old, states, pages, lang, pages.len() as int);
    assert(states[pages.len() as int] == new);
    lemma_total_zero(new, pages);
}

// ---------------------------------------------------------------------
// Reading a page's content
// ---------------------------------------------------------------------

proof fn lemma_items_more_steps(doc: PdfDocument, items: Seq<PdfObject>, f: nat, g: nat)
    requires
        f <= g,
        items_content(doc, items, f) is Some,
    ensures
        items_content(doc, items, g) == items_content(doc, items, f),
    decreases f, items.len(),
{
    if items.len() > 0 {
        lemma_items_more_steps(doc, items.drop_last(), f, g);
        match items.last() {
            PdfObject::Reference(id) => match get_obj(doc, id) {
                Ok(PdfObject::Array(inner)) => {
                    if f > 0 {
                        lemma_items_more_steps(doc, inner@, (f - 1) as nat, (g - 1) as nat);
                    }
                },
                _ => {},
            },
            _ => {},
        }
    }
}

/// Reading a page's content with more steps than it needs gives the same
/// result: the step bound only cuts off reference cycles, which never end.
pub proof fn law_content_steps_only_cut_cycles(doc: PdfDocument, obj: PdfObject, f: nat, g: nat)
    requires
        f <= g,
        content_within(doc, obj, f) is Some,
    ensures
        content_within(doc, obj, g) == content_within(doc, obj, f),
    decreases f,
{
    match obj {
        PdfObject::Array(items) => {
            lemma_items_more_steps(doc, items@, f, g);
        },
        PdfObject::Reference(id) => match get_obj(doc, id) {
            Ok(o) => {
                if f > 0 {
                    law_content_steps_only_cut_cycles(doc, o, (f - 1) as nat, (g - 1) as nat);
                }
            },
            Err(_) => {},
        },
        _ => {},
    }
}

} // verus!
