//! Fortunes in the order in which they are shown: by message, and among equal
//! messages in the order in which they came.

use vstd::prelude::*;

use crate::bytes::{
    bytes_le, is_after, law_first_difference_decides, law_prefix_comes_first, lemma_bytes_le_total,
    lemma_bytes_le_transitive,
};

verus! {

/// A fortune: its number and the bytes of its message.
pub struct Fortune {
    pub id: i32,
    pub message: Seq<u8>,
}

/// The fortunes that a list of numbers and messages stands for.
pub open spec fn fortunes_of(rows: Seq<(i32, &[u8])>) -> Seq<Fortune> {
    Seq::new(rows.len(), |i: int| Fortune { id: rows[i].0, message: rows[i].1@ })
}

/// Whether the messages are in lexicographic order.
pub open spec fn is_sorted(rows: Seq<Fortune>) -> bool {
    forall|i: int, j: int|
        0 <= i <= j < rows.len() ==> bytes_le(#[trigger] rows[i].message, #[trigger] rows[j].message)
}

/// The fortunes with the given message, in the order in which they stand.
pub open spec fn with_message(rows: Seq<Fortune>, message: Seq<u8>) -> Seq<Fortune> {
    rows.filter(|f: Fortune| f.message == message)
}

/// Whether `sorted` is `rows` in order of message, where fortunes with the
/// same message keep their order.
pub open spec fn is_stable_sort(rows: Seq<Fortune>, sorted: Seq<Fortune>) -> bool {
    &&& is_sorted(sorted)
    &&& forall|message: Seq<u8>| #[trigger]
        with_message(sorted, message) == with_message(rows, message)
}

/// `rows` in order of message, where fortunes with the same message keep
/// their order.
pub open spec fn by_message(rows: Seq<Fortune>) -> Seq<Fortune> {
    choose|sorted: Seq<Fortune>| is_stable_sort(rows, sorted)
}

/// Putting a further fortune behind all that do not come after it keeps the
/// order.
proof fn lemma_insert(rows: Seq<Fortune>, sorted: Seq<Fortune>, x: Fortune, at: int)
    requires
        is_stable_sort(rows, sorted),
        0 <= at <= sorted.len(),
        at > 0 ==> bytes_le(sorted[at - 1].message, x.message),
        at < sorted.len() ==> !bytes_le(sorted[at].message, x.message),
    ensures
        is_stable_sort(rows.push(x), sorted.insert(at, x)),
{
    let after = sorted.insert(at, x);
    assert forall|k: int| 0 <= k < at implies bytes_le(sorted[k].message, x.message) by {
        lemma_bytes_le_transitive(sorted[k].message, sorted[at - 1].message, x.message);
    }
    assert forall|k: int| at <= k < sorted.len() implies !bytes_le(sorted[k].message, x.message) by {
        if bytes_le(sorted[k].message, x.message) {
            lemma_bytes_le_transitive(sorted[at].message, sorted[k].message, x.message);
        }
    }
    assert(is_sorted(after)) by {
        assert forall|i: int, j: int| 0 <= i <= j < after.len() implies bytes_le(
            #[trigger] after[i].message,
            #[trigger] after[j].message,
        ) by {
            if i == at && j > at {
                lemma_bytes_le_total(x.message, sorted[j - 1].message);
            } else if i == at && j == at {
                lemma_bytes_le_total(x.message, x.message);
            }
        }
    }
    assert forall|message: Seq<u8>| #[trigger]
        with_message(after, message) == with_message(rows.push(x), message) by {
        let keep = |f: Fortune| f.message == message;
        let front = sorted.take(at);
        let back = sorted.skip(at);
        assert(after =~= front.push(x) + back);
        assert(sorted =~= front + back);
        Seq::filter_distributes_over_add(front.push(x), back, keep);
        Seq::filter_distributes_over_add(front, back, keep);
        lemma_filter_push(front, x, keep);
        lemma_filter_push(rows, x, keep);
        assert(with_message(sorted, message) == with_message(rows, message));
        if message == x.message {
            assert forall|k: int| 0 <= k < back.len() implies !keep(#[trigger] back[k]) by {
                lemma_bytes_le_total(x.message, x.message);
                assert(back[k] == sorted[at + k]);
            }
            lemma_filter_none(back, keep);
        }
    }
}

proof fn lemma_filter_push(s: Seq<Fortune>, x: Fortune, keep: spec_fn(Fortune) -> bool)
    ensures
        s.push(x).filter(keep) == if keep(x) {
            s.filter(keep).push(x)
        } else {
            s.filter(keep)
        },
{
    reveal(Seq::filter);
    assert(s.push(x).drop_last() =~= s);
}

proof fn lemma_filter_none(s: Seq<Fortune>, keep: spec_fn(Fortune) -> bool)
    requires
        forall|k: int| 0 <= k < s.len() ==> !keep(#[trigger] s[k]),
    ensures
        s.filter(keep) == Seq::<Fortune>::empty(),
    decreases s.len(),
{
    reveal(Seq::filter);
    if s.len() > 0 {
        lemma_filter_none(s.drop_last(), keep);
    }
}

/// Every list of fortunes has a stable sort, made of the same fortunes.
proof fn lemma_stable_sort_exists(rows: Seq<Fortune>) -> (sorted: Seq<Fortune>)
    ensures
        is_stable_sort(rows, sorted),
        sorted.to_multiset() == rows.to_multiset(),
    decreases rows.len(),
{
    if rows.len() == 0 {
        rows
    } else {
        let x = rows.last();
        let front = lemma_stable_sort_exists(rows.drop_last());
        let at = lemma_insertion_point(front, x, front.len() as int);
        lemma_insert(rows.drop_last(), front, x, at);
        assert(rows.drop_last().push(x) =~= rows);
        vstd::seq_lib::to_multiset_insert(front, at, x);
        vstd::seq_lib::to_multiset_insert(rows.drop_last(), rows.len() - 1, x);
        assert(rows.drop_last().insert(rows.len() - 1, x) =~= rows);
        front.insert(at, x)
    }
}

/// The place of a further fortune: behind all that do not come after it.
proof fn lemma_insertion_point(sorted: Seq<Fortune>, x: Fortune, from: int) -> (at: int)
    requires
        0 <= from <= sorted.len(),
        from < sorted.len() ==> !bytes_le(sorted[from].message, x.message),
    ensures
        0 <= at <= sorted.len(),
        at > 0 ==> bytes_le(sorted[at - 1].message, x.message),
        at < sorted.len() ==> !bytes_le(sorted[at].message, x.message),
    decreases from,
{
    if from == 0 || bytes_le(sorted[from - 1].message, x.message) {
        from
    } else {
        lemma_insertion_point(sorted, x, from - 1)
    }
}

/// There is only one stable sort of a list of fortunes.
pub proof fn law_stable_sort_is_unique(rows: Seq<Fortune>, a: Seq<Fortune>, b: Seq<Fortune>)
    requires
        is_stable_sort(rows, a),
        is_stable_sort(rows, b),
    ensures
        a == b,
{
    assert forall|message: Seq<u8>| #[trigger]
        with_message(a, message) == with_message(b, message) by {
        assert(with_message(a, message) == with_message(rows, message));
        assert(with_message(b, message) == with_message(rows, message));
    }
    lemma_sorted_is_determined(a, b);
}

proof fn lemma_sorted_is_determined(a: Seq<Fortune>, b: Seq<Fortune>)
    requires
        is_sorted(a),
        is_sorted(b),
        forall|message: Seq<u8>| #[trigger]
            with_message(a, message) == with_message(b, message),
    ensures
        a == b,
    decreases a.len(),
{
    if a.len() == 0 {
        if b.len() > 0 {
            lemma_last_is_kept(b);
            assert(with_message(a, b.last().message) == with_message(b, b.last().message));
            lemma_filter_none(a, |f: Fortune| f.message == b.last().message);
        }
        assert(a =~= b);
    } else {
        let m = a.last().message;
        lemma_last_is_kept(a);
        assert(with_message(a, m) == with_message(b, m));
        if b.len() == 0 {
            lemma_filter_none(b, |f: Fortune| f.message == m);
        }
        lemma_last_is_kept(b);
        let n = b.last().message;
        assert(with_message(a, n) == with_message(b, n));
        lemma_kept_has_place(b, m);
        lemma_kept_has_place(a, n);
        let i = choose|i: int| 0 <= i < b.len() && #[trigger] b[i].message == m;
        let j = choose|j: int| 0 <= j < a.len() && #[trigger] a[j].message == n;
        assert(bytes_le(b[i].message, b[b.len() - 1].message));
        assert(bytes_le(a[j].message, a[a.len() - 1].message));
        lemma_bytes_le_total(m, n);
        assert(m == n);
        assert(a.last() == b.last());
        assert forall|message: Seq<u8>| #[trigger]
            with_message(a.drop_last(), message) == with_message(b.drop_last(), message) by {
            let keep = |f: Fortune| f.message == message;
            assert(with_message(a, message) == with_message(b, message));
            assert(a.drop_last().push(a.last()) =~= a);
            assert(b.drop_last().push(b.last()) =~= b);
            lemma_filter_push(a.drop_last(), a.last(), keep);
            lemma_filter_push(b.drop_last(), b.last(), keep);
            if keep(a.last()) {
                assert(with_message(a, message).drop_last() =~= with_message(
                    a.drop_last(),
                    message,
                ));
                assert(with_message(b, message).drop_last() =~= with_message(
                    b.drop_last(),
                    message,
                ));
            }
        }
        lemma_sorted_is_determined(a.drop_last(), b.drop_last());
        assert(a =~= a.drop_last().push(a.last()));
        assert(b =~= b.drop_last().push(b.last()));
    }
}

/// The last fortune is the last one with its message.
proof fn lemma_last_is_kept(rows: Seq<Fortune>)
    requires
        rows.len() > 0,
    ensures
        with_message(rows, rows.last().message).len() > 0,
        with_message(rows, rows.last().message).last() == rows.last(),
{
    assert(rows.drop_last().push(rows.last()) =~= rows);
    lemma_filter_push(
        rows.drop_last(),
        rows.last(),
        |f: Fortune| f.message == rows.last().message,
    );
}

proof fn lemma_kept_has_place(rows: Seq<Fortune>, message: Seq<u8>)
    requires
        with_message(rows, message).len() > 0,
    ensures
        exists|i: int| 0 <= i < rows.len() && #[trigger] rows[i].message == message,
{
    let keep = |f: Fortune| f.message == message;
    if forall|i: int| 0 <= i < rows.len() ==> #[trigger] rows[i].message != message {
        lemma_filter_none(rows, keep);
    }
}

/// The sorted list is in order of message, keeps the order of fortunes with
/// the same message, and is made of the very fortunes that were given: none is
/// lost and none is shown twice.
pub proof fn law_by_message_sorts(rows: Seq<Fortune>)
    ensures
        is_stable_sort(rows, by_message(rows)),
        by_message(rows).to_multiset() == rows.to_multiset(),
{
    let sorted = lemma_stable_sort_exists(rows);
    law_stable_sort_is_unique(rows, sorted, by_message(rows));
}

/// Sorts rows by message with an insertion sort, which keeps the order of rows
/// with the same message.
pub(crate) fn sort_by_message(rows: &mut [(i32, &[u8])])
    ensures
        fortunes_of(final(rows)@) == by_message(fortunes_of(old(rows)@)),
{
    let total: usize = rows.len();
    let ghost given = rows@;
    let mut i: usize = 0;
    proof {
        assert(fortunes_of(given.take(0)) =~= Seq::<Fortune>::empty());
    }
    while i < total
        invariant
            i <= total,
            total == rows@.len(),
            total == given.len(),
            is_stable_sort(fortunes_of(given.take(i as int)), fortunes_of(rows@.take(i as int))),
            forall|k: int| i <= k < total ==> rows@[k] == given[k],
        decreases total - i,
    {
        let ghost before = rows@;
        let key: (i32, &[u8]) = rows[i];
        let mut j: usize = i;
        while j > 0 && is_after(rows[j - 1].1, key.1)
            invariant
                j <= i < total,
                total == rows@.len(),
                total == before.len(),
                key == before[i as int],
                forall|k: int| 0 <= k < j ==> rows@[k] == before[k],
                forall|k: int| j < k <= i ==> rows@[k] == before[k - 1],
                forall|k: int| i < k < total ==> rows@[k] == before[k],
                j < i ==> !bytes_le(before[j as int].1@, key.1@),
            decreases j,
        {
            rows[j] = rows[j - 1];
            j -= 1;
        }
        rows[j] = key;
        proof {
            let sorted = fortunes_of(before.take(i as int));
            let x = Fortune { id: key.0, message: key.1@ };
            lemma_insert(fortunes_of(given.take(i as int)), sorted, x, j as int);
            assert(fortunes_of(given.take(i + 1)) =~= fortunes_of(given.take(i as int)).push(x));
            assert(fortunes_of(rows@.take(i + 1)) =~= sorted.insert(j as int, x));
        }
        i += 1;
    }
    proof {
        assert(given.take(total as int) =~= given);
        assert(rows@.take(total as int) =~= rows@);
        law_by_message_sorts(fortunes_of(given));
        law_stable_sort_is_unique(
            fortunes_of(given),
            fortunes_of(rows@),
            by_message(fortunes_of(given)),
        );
    }
}

/// The fortunes are shown in the order of their messages' bytes: of two that
/// are shown one behind the other, the first byte in which they differ is the
/// smaller one in the one that comes first, and a message comes before every
/// longer one that it starts.
pub proof fn law_messages_ascend(rows: Seq<Fortune>, i: int, j: int)
    requires
        0 <= i < j < by_message(rows).len(),
    ensures
        ({
            let a = by_message(rows)[i].message;
            let b = by_message(rows)[j].message;
            &&& forall|k: int|
                0 <= k < a.len() && k < b.len() && (forall|m: int|
                    0 <= m < k ==> #[trigger] a[m] == b[m]) ==> (#[trigger] a[k] as int) <= (
                b[k] as int)
            &&& (forall|m: int| 0 <= m < b.len() && m < a.len() ==> #[trigger] a[m] == b[m])
                ==> a.len() <= b.len()
        }),
{
    let sorted = by_message(rows);
    let a = sorted[i].message;
    let b = sorted[j].message;
    law_by_message_sorts(rows);
    assert(bytes_le(a, b));
    assert forall|k: int|
        0 <= k < a.len() && k < b.len() && (forall|m: int|
            0 <= m < k ==> #[trigger] a[m] == b[m]) implies (#[trigger] a[k] as int) <= (
    b[k] as int) by {
        if b[k] < a[k] {
            law_first_difference_decides(b, a, k);
        }
    }
    if b.len() < a.len() && (forall|m: int|
        0 <= m < b.len() && m < a.len() ==> #[trigger] a[m] == b[m]) {
        law_prefix_comes_first(b, a);
    }
}

/// Sorting shows each fortune once, and those with the same message in the
/// order in which they came.
pub proof fn law_every_fortune_is_shown(rows: Seq<Fortune>, message: Seq<u8>)
    ensures
        by_message(rows).len() == rows.len(),
        by_message(rows).to_multiset() == rows.to_multiset(),
        by_message(rows).filter(|f: Fortune| f.message == message) == rows.filter(
            |f: Fortune| f.message == message,
        ),
{
    law_by_message_sorts(rows);
    rows.to_multiset_ensures();
    by_message(rows).to_multiset_ensures();
    assert(with_message(by_message(rows), message) == with_message(rows, message));
}

/// A row of the database is the fortune with its number and its message.
pub proof fn law_rows_are_fortunes(rows: Seq<(i32, &[u8])>, i: int)
    requires
        0 <= i < rows.len(),
    ensures
        fortunes_of(rows).len() == rows.len(),
        fortunes_of(rows)[i].id == rows[i].0,
        fortunes_of(rows)[i].message == rows[i].1@,
{
}

} // verus!
