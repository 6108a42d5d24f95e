//! Reading a page's content takes at most one step per stored object
//! unless the nested arrays it goes through form a cycle, which no number
//! of steps gets through.
use vstd::prelude::*;
use crate::model::{
    get_obj, is_last_id, lemma_resolve_ok, object_position, resolve, stored_object, ObjectId,
    PdfDocument, PdfObject,
};
use crate::pdf::flatten::{content_fuel, content_within, items_content};
use crate::pdf::laws::law_content_steps_only_cut_cycles;

verus! {

/// The items of the array stored under `t` (none when it is not an array).
pub open spec fn array_items(doc: PdfDocument, t: ObjectId) -> Seq<PdfObject> {
    match stored_object(doc.objects@, t) {
        Some(PdfObject::Array(a)) => a@,
        _ => Seq::empty(),
    }
}

/// Item `k` of `items` is a reference that leads to the array stored under `t`.
pub open spec fn descends_at(doc: PdfDocument, items: Seq<PdfObject>, k: int, t: ObjectId) -> bool {
    &&& 0 <= k < items.len()
    &&& items[k] matches PdfObject::Reference(id)
    &&& resolve(doc.objects@, id, 0) matches Ok((t2, PdfObject::Array(_)))
    &&& t2 == t
}

/// Some item of `items` leads to the array stored under `t`.
pub open spec fn descends(doc: PdfDocument, items: Seq<PdfObject>, t: ObjectId) -> bool {
    exists|k: int| descends_at(doc, items, k, t)
}

/// `p` is a chain of nested arrays that reading `items` goes through.
pub open spec fn is_chain(doc: PdfDocument, items: Seq<PdfObject>, p: Seq<ObjectId>) -> bool {
    &&& p.len() >= 1
    &&& descends(doc, items, p[0])
    &&& forall|i: int| 0 <= i < p.len() - 1 ==> #[trigger] descends(doc, array_items(doc, p[i]), p[i + 1])
}

/// The ids under which objects are stored.
pub open spec fn stored_ids(doc: PdfDocument) -> Set<ObjectId> {
    doc.objects@.map_values(|e: (ObjectId, PdfObject)| e.0).to_set()
}

proof fn lemma_prefix_some(doc: PdfDocument, items: Seq<PdfObject>, g: nat, k: int)
    requires
        items_content(doc, items, g) is Some,
        0 <= k <= items.len(),
    ensures
        items_content(doc, items.take(k), g) is Some,
    decreases items.len() - k,
{
    if k == items.len() {
        assert(items.take(k) =~= items);
    } else {
        lemma_prefix_some(doc, items, g, k + 1);
        assert(items.take(k + 1).drop_last() =~= items.take(k));
    }
}

proof fn lemma_resolved_array(doc: PdfDocument, id: ObjectId, t: ObjectId)
    requires
        resolve(doc.objects@, id, 0) matches Ok((t2, PdfObject::Array(_))) && t2 == t,
    ensures
        get_obj(doc, id) == Ok::<PdfObject, crate::model::ObjectError>(stored_object(doc.objects@, t)->Some_0),
        stored_object(doc.objects@, t) matches Some(PdfObject::Array(a)) && a@ == array_items(doc, t),
        stored_ids(doc).contains(t),
{
    lemma_resolve_ok(doc.objects@, id, 0);
    let p: int = object_position(doc.objects@, t)->Some_0;
    assert(is_last_id(doc.objects@, t, p));
    let ids = doc.objects@.map_values(|e: (ObjectId, PdfObject)| e.0);
    assert(ids[p] == t);
    assert(ids.contains(t));
}

/// Reading items that lead to an array reads that array with one step less.
proof fn lemma_one_step(doc: PdfDocument, items: Seq<PdfObject>, g: nat, t: ObjectId)
    requires
        items_content(doc, items, g) is Some,
        descends(doc, items, t),
    ensures
        g >= 1,
        items_content(doc, array_items(doc, t), (g - 1) as nat) is Some,
{
    let k: int = choose|k: int| descends_at(doc, items, k, t);
    lemma_prefix_some(doc, items, g, k + 1);
    let pre = items.take(k + 1);
    assert(pre.last() == items[k]);
    let id = items[k]->Reference_0;
    lemma_resolved_array(doc, id, t);
}

/// Following a chain of `m` arrays takes `m` steps.
proof fn lemma_follow(doc: PdfDocument, items: Seq<PdfObject>, g: nat, p: Seq<ObjectId>, m: int)
    requires
        items_content(doc, items, g) is Some,
        is_chain(doc, items, p),
        1 <= m <= p.len(),
    ensures
        g >= m,
        items_content(doc, array_items(doc, p[m - 1]), (g - m) as nat) is Some,
    decreases m,
{
    if m == 1 {
        lemma_one_step(doc, items, g, p[0]);
    } else {
        lemma_follow(doc, items, g, p, m - 1);
        let i: int = m - 2;
        assert(descends(doc, array_items(doc, p[i]), p[i + 1]));
        lemma_one_step(doc, array_items(doc, p[m - 2]), (g - (m - 1)) as nat, p[m - 1]);
    }
}

/// No reading that ends gets back to an array it is reading.
proof fn lemma_no_loop(doc: PdfDocument, t: ObjectId, f: nat, c: Seq<ObjectId>)
    requires
        is_chain(doc, array_items(doc, t), c),
        c.last() == t,
    ensures
        items_content(doc, array_items(doc, t), f) is None,
    decreases f,
{
    if items_content(doc, array_items(doc, t), f) is Some {
        lemma_follow(doc, array_items(doc, t), f, c, c.len() as int);
        lemma_no_loop(doc, t, (f - c.len()) as nat, c);
    }
}

/// A part of a chain is a chain from where it starts.
proof fn lemma_sub_chain(doc: PdfDocument, items: Seq<PdfObject>, p: Seq<ObjectId>, i: int, j: int)
    requires
        is_chain(doc, items, p),
        0 <= i < j < p.len(),
    ensures
        is_chain(doc, array_items(doc, p[i]), p.subrange(i + 1, j + 1)),
{
    let c = p.subrange(i + 1, j + 1);
    assert(descends(doc, array_items(doc, p[i]), p[i + 1]));
    assert forall|k: int| 0 <= k < c.len() - 1 implies #[trigger] descends(doc, array_items(doc, c[k]), c[k + 1]) by {
        let n: int = i + 1 + k;
        assert(descends(doc, array_items(doc, p[n]), p[n + 1]));
        assert(c[k] == p[n]);
        assert(c[k + 1] == p[n + 1]);
    }
}

/// The arrays of a chain that reading goes through are all different.
proof fn lemma_chain_distinct(doc: PdfDocument, items: Seq<PdfObject>, g: nat, p: Seq<ObjectId>)
    requires
        items_content(doc, items, g) is Some,
        is_chain(doc, items, p),
    ensures
        p.no_duplicates(),
{
    assert forall|i: int, j: int| 0 <= i < p.len() && 0 <= j < p.len() && i != j implies p[i] != p[j] by {
        if p[i] == p[j] {
            let a: int = if i < j { i } else { j };
            let b: int = if i < j { j } else { i };
            lemma_follow(doc, items, g, p, a + 1);
            lemma_sub_chain(doc, items, p, a, b);
            lemma_no_loop(doc, p[a], (g - (a + 1)) as nat, p.subrange(a + 1, b + 1));
        }
    }
}

/// The arrays of a chain are stored objects.
proof fn lemma_chain_stored(doc: PdfDocument, items: Seq<PdfObject>, p: Seq<ObjectId>)
    requires
        is_chain(doc, items, p),
    ensures
        forall|i: int| 0 <= i < p.len() ==> stored_ids(doc).contains(#[trigger] p[i]),
{
    assert forall|i: int| 0 <= i < p.len() implies stored_ids(doc).contains(#[trigger] p[i]) by {
        let from = if i == 0 {
            items
        } else {
            array_items(doc, p[i - 1])
        };
        if i > 0 {
            let h: int = i - 1;
            assert(descends(doc, array_items(doc, p[h]), p[h + 1]));
        }
        assert(descends(doc, from, p[i]));
        let k: int = choose|k: int| descends_at(doc, from, k, p[i]);
        lemma_resolved_array(doc, from[k]->Reference_0, p[i]);
    }
}

/// A sequence of different stored ids is no longer than the document.
proof fn lemma_distinct_stored_len(doc: PdfDocument, p: Seq<ObjectId>)
    requires
        p.no_duplicates(),
        forall|i: int| 0 <= i < p.len() ==> stored_ids(doc).contains(#[trigger] p[i]),
    ensures
        p.len() <= doc.objects@.len(),
{
    let ids = doc.objects@.map_values(|e: (ObjectId, PdfObject)| e.0);
    p.unique_seq_to_set();
    vstd::seq_lib::seq_to_set_is_finite(ids);
    assert(p.to_set().subset_of(ids.to_set()));
    vstd::set_lib::lemma_len_subset(p.to_set(), ids.to_set());
    ids.lemma_cardinality_of_set();
}

/// A chain from `items` is as long as the document allows.
proof fn lemma_chain_len(doc: PdfDocument, items: Seq<PdfObject>, g: nat, p: Seq<ObjectId>)
    requires
        items_content(doc, items, g) is Some,
        is_chain(doc, items, p),
    ensures
        p.len() <= doc.objects@.len(),
{
    lemma_chain_distinct(doc, items, g, p);
    lemma_chain_stored(doc, items, p);
    lemma_distinct_stored_len(doc, p);
}

/// A chain after a step into `t` is a chain one longer.
proof fn lemma_chain_cons(doc: PdfDocument, items: Seq<PdfObject>, t: ObjectId, q: Seq<ObjectId>)
    requires
        descends(doc, items, t),
        is_chain(doc, array_items(doc, t), q),
    ensures
        is_chain(doc, items, seq![t] + q),
{
    let p = seq![t] + q;
    assert(p[0] == t);
    assert forall|i: int| 0 <= i < p.len() - 1 implies #[trigger] descends(doc, array_items(doc, p[i]), p[i + 1]) by {
        if i == 0 {
            assert(p[1] == q[0]);
        } else {
            let h: int = i - 1;
            assert(descends(doc, array_items(doc, q[h]), q[h + 1]));
            assert(p[i] == q[h]);
            assert(p[i + 1] == q[h + 1]);
        }
    }
}

/// Reading with as many steps as the longest chain is enough.
proof fn lemma_enough_steps(doc: PdfDocument, items: Seq<PdfObject>, g: nat, f: nat)
    requires
        items_content(doc, items, g) is Some,
        forall|p: Seq<ObjectId>| #[trigger] is_chain(doc, items, p) ==> p.len() <= f,
    ensures
        items_content(doc, items, f) is Some,
    decreases g, items.len(),
{
    if items.len() > 0 {
        let pre = items.drop_last();
        assert forall|p: Seq<ObjectId>| #[trigger] is_chain(doc, pre, p) implies p.len() <= f by {
            let k: int = choose|k: int| descends_at(doc, pre, k, p[0]);
            assert(descends_at(doc, items, k, p[0]));
            assert(is_chain(doc, items, p));
        }
        lemma_enough_steps(doc, pre, g, f);
        match items.last() {
            PdfObject::Reference(id) => match get_obj(doc, id) {
                Ok(PdfObject::Array(inner)) => {
                    let t = resolve(doc.objects@, id, 0)->Ok_0.0;
                    lemma_resolve_ok(doc.objects@, id, 0);
                    assert(descends_at(doc, items, items.len() - 1, t));
                    lemma_resolved_array(doc, id, t);
                    assert(is_chain(doc, items, seq![t]));
                    assert forall|q: Seq<ObjectId>| #[trigger] is_chain(doc, inner@, q) implies q.len() <= f - 1 by {
                        lemma_chain_cons(doc, items, t, q);
                    }
                    lemma_enough_steps(doc, inner@, (g - 1) as nat, (f - 1) as nat);
                },
                _ => {},
            },
            _ => {},
        }
    }
}

/// Reading a page's content with one step per stored object gives what any
/// bound gives that suffices: so `content_of` answers `ReferenceLimit` for
/// running out of steps only where reading never ends (a cycle of nested
/// arrays).
pub proof fn law_object_count_is_enough_steps(doc: PdfDocument, obj: PdfObject, g: nat)
    requires
        content_within(doc, obj, g) is Some,
    ensures
        content_within(doc, obj, content_fuel(doc)) == content_within(doc, obj, g),
{
    let n: nat = content_fuel(doc);
    match obj {
        PdfObject::Array(items) => {
            assert forall|p: Seq<ObjectId>| #[trigger] is_chain(doc, items@, p) implies p.len() <= n by {
                lemma_chain_len(doc, items@, g, p);
            }
            lemma_enough_steps(doc, items@, g, n);
            assert(content_within(doc, obj, n) is Some);
        },
        PdfObject::Reference(id) => match get_obj(doc, id) {
            Ok(o) => {
                lemma_resolve_ok(doc.objects@, id, 0);
                let t0 = resolve(doc.objects@, id, 0)->Ok_0.0;
                let pos: int = object_position(doc.objects@, t0)->Some_0;
                assert(is_last_id(doc.objects@, t0, pos));
                assert(n >= 1);
                if let PdfObject::Array(items) = o {
                    lemma_resolved_array(doc, id, t0);
                    assert(g >= 1);
                    assert(content_within(doc, o, (g - 1) as nat) is Some);
                    assert(items_content(doc, items@, (g - 1) as nat) is Some);
                    assert(array_items(doc, t0) == items@);
                    assert forall|p: Seq<ObjectId>| #[trigger] is_chain(doc, items@, p) implies p.len() <= n - 1 by {
                        let full = seq![t0] + p;
                        lemma_chain_distinct(doc, items@, (g - 1) as nat, p);
                        lemma_chain_stored(doc, items@, p);
                        assert forall|j: int| 0 <= j < p.len() implies p[j] != t0 by {
                            if p[j] == t0 {
                                let c = p.subrange(0, j + 1);
                                assert forall|k: int| 0 <= k < c.len() - 1 implies #[trigger] descends(doc, array_items(doc, c[k]), c[k + 1]) by {
                                    assert(descends(doc, array_items(doc, p[k]), p[k + 1]));
                                }
                                assert(c[0] == p[0]);
                                assert(c.last() == t0);
                                lemma_no_loop(doc, t0, (g - 1) as nat, c);
                            }
                        }
                        assert(full.no_duplicates()) by {
                            assert forall|a: int, b: int| 0 <= a < full.len() && 0 <= b < full.len() && a != b implies full[a] != full[b] by {
                                if a > 0 && b > 0 {
                                    assert(full[a] == p[a - 1]);
                                    assert(full[b] == p[b - 1]);
                                } else if a == 0 {
                                    assert(full[b] == p[b - 1]);
                                } else {
                                    assert(full[a] == p[a - 1]);
                                }
                            }
                        }
                        assert forall|i: int| 0 <= i < full.len() implies stored_ids(doc).contains(#[trigger] full[i]) by {
                            if i > 0 {
                                assert(full[i] == p[i - 1]);
                            }
                        }
                        lemma_distinct_stored_len(doc, full);
                    }
                    lemma_enough_steps(doc, items@, (g - 1) as nat, (n - 1) as nat);
                    assert(content_within(doc, o, (n - 1) as nat) is Some);
                }
                assert(content_within(doc, obj, n) is Some);
            },
            Err(_) => {},
        },
        _ => {},
    }
    if n <= g {
        law_content_steps_only_cut_cycles(doc, obj, n, g);
    } else {
        law_content_steps_only_cut_cycles(doc, obj, g, n);
    }
}

} // verus!
