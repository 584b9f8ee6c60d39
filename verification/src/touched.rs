//! Which pools were touched in a block: the distinct emitters of its swap logs.

use crate::address::Address;
use crate::chain::RawLog;
use itertools::Itertools;
use vstd::prelude::*;

verus! {

/// The items of a sequence in order, each only where it occurs first.
pub open spec fn first_occurrences<T>(items: Seq<T>) -> Seq<T>
    decreases items.len(),
{
    if items.len() == 0 {
        Seq::empty()
    } else {
        let before = first_occurrences(items.drop_last());
        if before.contains(items.last()) {
            before
        } else {
            before.push(items.last())
        }
    }
}

/// The emitting addresses of the logs, in order.
pub open spec fn emitters(logs: Seq<RawLog>) -> Seq<Address> {
    Seq::new(logs.len(), |i: int| logs[i].address)
}

/// Keeping first occurrences keeps every item once and adds none.
pub proof fn lemma_first_occurrences<T>(items: Seq<T>)
    ensures
        first_occurrences(items).no_duplicates(),
        first_occurrences(items).len() <= items.len(),
        forall|x: T| first_occurrences(items).contains(x) <==> items.contains(x),
    decreases items.len(),
{
    if items.len() > 0 {
        let front = items.drop_last();
        let before = first_occurrences(front);
        let after = first_occurrences(items);
        lemma_first_occurrences(front);
        let last = items.last();
        assert(after == if before.contains(last) {
            before
        } else {
            before.push(last)
        });
        assert(before.len() <= after.len());
        assert forall|j: int| 0 <= j < before.len() implies after[j] == before[j] by {}
        assert forall|x: T| after.contains(x) <==> items.contains(x) by {
            if items.contains(x) {
                let i = choose|i: int| 0 <= i < items.len() && items[i] == x;
                if i < front.len() {
                    assert(front[i] == x);
                    assert(front.contains(x));
                }
                if before.contains(x) {
                    let j = choose|j: int| 0 <= j < before.len() && before[j] == x;
                    assert(after[j] == x);
                } else {
                    assert(x == last);
                    assert(after[after.len() - 1] == x);
                }
            }
            if after.contains(x) {
                let j = choose|j: int| 0 <= j < after.len() && after[j] == x;
                if j < before.len() {
                    assert(before[j] == x);
                    assert(before.contains(x));
                    assert(front.contains(x));
                    let i = choose|i: int| 0 <= i < front.len() && front[i] == x;
                    assert(items[i] == x);
                } else {
                    assert(items[items.len() - 1] == x);
                }
            }
        }
    }
}

/// As many items are kept as the sequence has different ones.
pub proof fn lemma_first_occurrences_count<T>(items: Seq<T>)
    ensures
        first_occurrences(items).len() == items.to_set().len(),
{
    let kept = first_occurrences(items);
    lemma_first_occurrences(items);
    kept.unique_seq_to_set();
    assert(kept.to_set() =~= items.to_set());
}

/// Keeping first occurrences goes along with renaming the items one to one.
pub proof fn lemma_first_occurrences_map<A, B>(items: Seq<A>, f: spec_fn(A) -> B)
    requires
        forall|x: A, y: A| #[trigger] f(x) == #[trigger] f(y) ==> x == y,
    ensures
        first_occurrences(items.map_values(f)) == first_occurrences(items).map_values(f),
    decreases items.len(),
{
    let mapped = items.map_values(f);
    if items.len() == 0 {
        assert(first_occurrences(items).map_values(f) =~= Seq::<B>::empty());
    } else {
        let front = items.drop_last();
        lemma_first_occurrences_map(front, f);
        assert(mapped.drop_last() =~= front.map_values(f));
        assert(mapped.last() == f(items.last()));
        let before = first_occurrences(front);
        if before.contains(items.last()) {
            let j = choose|j: int| 0 <= j < before.len() && before[j] == items.last();
            assert(before.map_values(f)[j] == f(items.last()));
        } else {
            if before.map_values(f).contains(f(items.last())) {
                let j = choose|j: int|
                    0 <= j < before.map_values(f).len() && before.map_values(f)[j] == f(
                        items.last(),
                    );
                assert(f(before[j]) == f(items.last()));
                assert(before[j] == items.last());
            }
            assert(before.push(items.last()).map_values(f) =~= before.map_values(f).push(
                f(items.last()),
            ));
        }
    }
}

/// The pools that the swap logs of a block show as touched: the emitter of
/// every log, once each, in the order in which they first appear. There are
/// as many as the logs have different emitters: none for no logs.
pub fn get_touched_pools(logs: &Vec<RawLog>) -> (touched: Vec<Address>)
    ensures
        touched@ == first_occurrences(emitters(logs@)),
        touched@.no_duplicates(),
        forall|a: Address| touched@.contains(a) <==> emitters(logs@).contains(a),
        touched@.len() == emitters(logs@).to_set().len(),
        touched@.len() <= logs@.len(),
{
    let ghost bytes_of = |a: Address| a.bytes;
    let mut seen: Vec<[u8; 20]> = Vec::new();
    let mut i: usize = 0;
    while i < logs.len()
        invariant
            i <= logs@.len(),
            seen@ == emitters(logs@).take(i as int).map_values(bytes_of),
            bytes_of == |a: Address| a.bytes,
        decreases logs.len() - i,
    {
        seen.push(logs[i].address.bytes);
        assert(seen@ =~= emitters(logs@).take(i as int + 1).map_values(bytes_of));
        i = i + 1;
    }
    assert(emitters(logs@).take(i as int) =~= emitters(logs@));
    let kept = unique_in_order(seen);
    proof {
        lemma_first_occurrences_map(emitters(logs@), bytes_of);
        lemma_first_occurrences(emitters(logs@));
        lemma_first_occurrences_count(emitters(logs@));
    }
    let ghost want = first_occurrences(emitters(logs@));
    let mut touched: Vec<Address> = Vec::new();
    let mut j: usize = 0;
    while j < kept.len()
        invariant
            j <= kept@.len(),
            kept@ == want.map_values(bytes_of),
            bytes_of == |a: Address| a.bytes,
            touched@ == want.take(j as int),
        decreases kept.len() - j,
    {
        let a = Address { bytes: kept[j] };
        assert(want.map_values(bytes_of)[j as int] == bytes_of(want[j as int]));
        assert(a == want[j as int]);
        touched.push(a);
        assert(touched@ =~= want.take(j as int + 1));
        j = j + 1;
    }
    assert(want.take(j as int) =~= want);
    touched
}

/// Calls `Itertools::unique` of `itertools` on the items in order and
/// collects what it yields.
///
/// Trusted: it yields every item that has not been yielded before, in the
/// order of the input, so that of equal items the first is kept.
#[verifier::external_body]
fn unique_in_order(items: Vec<[u8; 20]>) -> (kept: Vec<[u8; 20]>)
    ensures
        kept@ == first_occurrences(items@),
{
    items.into_iter().unique().collect()
}

} // verus!
