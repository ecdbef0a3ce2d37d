//! Ordering names by a radix sort, one byte position after the other.

use vstd::prelude::*;
use crate::text::{same_text, utf8};
use crate::types::texts_of;

verus! {

/// How many positions are looked at: names that are longer are ordered by their beginning.
pub const POSITIONS: usize = 128;

/// One bucket for each byte, and one for the names that end before the position.
pub const BUCKETS: usize = 257;

/// The bucket of a name at a position.
pub open spec fn bucket_of(name: Seq<u8>, position: int) -> int {
    if position < name.len() {
        name[position] + 1
    } else {
        0
    }
}

/// Whether `a` comes no later than `b`, by the buckets from a position on.
pub open spec fn ordered_from(a: Seq<u8>, b: Seq<u8>, position: int) -> bool
    decreases POSITIONS - position,
{
    if position >= POSITIONS {
        true
    } else {
        bucket_of(a, position) < bucket_of(b, position) || (bucket_of(a, position) == bucket_of(
            b,
            position,
        ) && ordered_from(a, b, position + 1))
    }
}

/// Whether an order lists every index up to `n` once.
pub open spec fn is_arrangement(order: Seq<usize>, n: int) -> bool {
    &&& order.len() == n
    &&& forall|x: int| 0 <= x < n ==> (#[trigger] order[x]) < n
    &&& forall|x: int, y: int| 0 <= x < y < n ==> #[trigger] order[x] != #[trigger] order[y]
    &&& forall|i: int| 0 <= i < n ==> #[trigger] is_listed(order, i)
}

/// Whether an index is somewhere in an order.
pub open spec fn is_listed(order: Seq<usize>, i: int) -> bool {
    exists|x: int| 0 <= x < order.len() && #[trigger] order[x] == i
}

/// Whether an order sorts the names by their buckets from a position on.
pub open spec fn sorts(names: Seq<Seq<u8>>, order: Seq<usize>, position: int) -> bool {
    forall|x: int, y: int|
        0 <= x < y < order.len() ==> ordered_from(
            names[#[trigger] order[x] as int],
            names[#[trigger] order[y] as int],
            position,
        )
}

/// The bucket of the name at a place in the order.
spec fn bucket_at(names: Seq<Seq<u8>>, order: Seq<usize>, position: int, k: int) -> int {
    bucket_of(names[order[k] as int], position)
}

/// How many of the first `upto` names in the order are in a bucket.
spec fn tally(
    names: Seq<Seq<u8>>,
    order: Seq<usize>,
    position: int,
    bucket: int,
    upto: int,
) -> nat
    decreases upto,
{
    if upto <= 0 {
        0
    } else {
        tally(names, order, position, bucket, upto - 1) + if bucket_at(
            names,
            order,
            position,
            upto - 1,
        ) == bucket {
            1nat
        } else {
            0
        }
    }
}

/// How many of the first `upto` names in the order are in a bucket before `bucket`.
spec fn below(
    names: Seq<Seq<u8>>,
    order: Seq<usize>,
    position: int,
    bucket: int,
    upto: int,
) -> nat
    decreases bucket,
{
    if bucket <= 0 {
        0
    } else {
        below(names, order, position, bucket - 1, upto) + tally(
            names,
            order,
            position,
            bucket - 1,
            upto,
        )
    }
}

/// Where a stable distribution puts the name that is at place `k` in the order.
spec fn place(names: Seq<Seq<u8>>, order: Seq<usize>, position: int, k: int) -> int {
    let bucket = bucket_at(names, order, position, k);
    (below(names, order, position, bucket, order.len() as int) + tally(
        names,
        order,
        position,
        bucket,
        k,
    )) as int
}

proof fn lemma_below_next(
    names: Seq<Seq<u8>>,
    order: Seq<usize>,
    position: int,
    bucket: int,
    upto: int,
)
    requires
        0 <= upto,
    ensures
        below(names, order, position, bucket, upto + 1) == below(
            names,
            order,
            position,
            bucket,
            upto,
        ) + if 0 <= bucket_at(names, order, position, upto) < bucket {
            1nat
        } else {
            0
        },
    decreases bucket,
{
    if bucket > 0 {
        lemma_below_next(names, order, position, bucket - 1, upto);
    }
}

/// All names together are in some bucket.
proof fn lemma_below_all(names: Seq<Seq<u8>>, order: Seq<usize>, position: int, upto: int)
    requires
        0 <= upto,
        0 <= position,
    ensures
        below(names, order, position, BUCKETS as int, upto) == upto,
    decreases upto,
{
    if upto == 0 {
        lemma_below_none(names, order, position, BUCKETS as int);
    } else {
        lemma_below_all(names, order, position, upto - 1);
        lemma_below_next(names, order, position, BUCKETS as int, upto - 1);
    }
}

proof fn lemma_below_none(names: Seq<Seq<u8>>, order: Seq<usize>, position: int, bucket: int)
    ensures
        below(names, order, position, bucket, 0) == 0,
    decreases bucket,
{
    if bucket > 0 {
        lemma_below_none(names, order, position, bucket - 1);
    }
}

proof fn lemma_below_grows(
    names: Seq<Seq<u8>>,
    order: Seq<usize>,
    position: int,
    a: int,
    b: int,
    upto: int,
)
    requires
        0 <= a < b,
    ensures
        below(names, order, position, a, upto) + tally(names, order, position, a, upto) <= below(
            names,
            order,
            position,
            b,
            upto,
        ),
    decreases b,
{
    if a < b - 1 {
        lemma_below_grows(names, order, position, a, b - 1, upto);
    }
}

proof fn lemma_tally_grows(
    names: Seq<Seq<u8>>,
    order: Seq<usize>,
    position: int,
    bucket: int,
    a: int,
    b: int,
)
    requires
        0 <= a <= b,
    ensures
        tally(names, order, position, bucket, a) <= tally(names, order, position, bucket, b),
        tally(names, order, position, bucket, b) <= b,
    decreases b,
{
    if a < b {
        lemma_tally_grows(names, order, position, bucket, a, b - 1);
    } else if b > 0 {
        lemma_tally_grows(names, order, position, bucket, a - 1, b - 1);
    }
}

/// Where two names are put: by their buckets, and in the same bucket as they were.
proof fn lemma_places(names: Seq<Seq<u8>>, order: Seq<usize>, position: int, i: int, j: int)
    requires
        0 <= position,
        0 <= i < order.len(),
        0 <= j < order.len(),
    ensures
        0 <= place(names, order, position, i) < order.len(),
        ({
            let a = bucket_at(names, order, position, i);
            let b = bucket_at(names, order, position, j);
            a < b || (a == b && i < j) ==> place(names, order, position, i) < place(
                names,
                order,
                position,
                j,
            )
        }),
{
    let n = order.len() as int;
    let a = bucket_at(names, order, position, i);
    let b = bucket_at(names, order, position, j);
    lemma_below_all(names, order, position, n);
    lemma_below_grows(names, order, position, a, BUCKETS as int, n);
    lemma_tally_grows(names, order, position, a, i + 1, n);
    if a < b {
        lemma_below_grows(names, order, position, a, b, n);
    } else if a == b && i < j {
        lemma_tally_grows(names, order, position, a, i + 1, j);
    }
}

/// The name that is put at `x`, given the bucket that `x` falls in.
proof fn lemma_source_in_bucket(
    names: Seq<Seq<u8>>,
    order: Seq<usize>,
    position: int,
    bucket: int,
    rank: int,
    upto: int,
) -> (k: int)
    requires
        0 <= rank < tally(names, order, position, bucket, upto),
        0 <= upto,
    ensures
        0 <= k < upto,
        bucket_at(names, order, position, k) == bucket,
        tally(names, order, position, bucket, k) == rank,
    decreases upto,
{
    if rank < tally(names, order, position, bucket, upto - 1) {
        lemma_source_in_bucket(names, order, position, bucket, rank, upto - 1)
    } else {
        upto - 1
    }
}

/// Some name is put at every place.
proof fn lemma_source(
    names: Seq<Seq<u8>>,
    order: Seq<usize>,
    position: int,
    x: int,
    bucket: int,
) -> (k: int)
    requires
        0 <= x < below(names, order, position, bucket, order.len() as int),
        0 <= bucket,
    ensures
        0 <= k < order.len(),
        place(names, order, position, k) == x,
    decreases bucket,
{
    let n = order.len() as int;
    if x < below(names, order, position, bucket - 1, n) {
        lemma_source(names, order, position, x, bucket - 1)
    } else {
        lemma_source_in_bucket(
            names,
            order,
            position,
            bucket - 1,
            x - below(names, order, position, bucket - 1, n),
            n,
        )
    }
}

/// What a stable distribution by the bucket at a position makes of an order.
proof fn lemma_distributed(
    names: Seq<Seq<u8>>,
    order: Seq<usize>,
    next: Seq<usize>,
    position: int,
)
    requires
        0 <= position < POSITIONS,
        is_arrangement(order, names.len() as int),
        sorts(names, order, position + 1),
        next.len() == order.len(),
        forall|k: int|
            0 <= k < order.len() ==> next[#[trigger] place(names, order, position, k)] == order[k],
    ensures
        is_arrangement(next, names.len() as int),
        sorts(names, next, position),
{
    let n = names.len() as int;
    lemma_below_all(names, order, position, n);
    assert forall|x: int| 0 <= x < n implies (#[trigger] next[x]) < n by {
        let k = lemma_source(names, order, position, x, BUCKETS as int);
        assert(next[place(names, order, position, k)] == order[k]);
    }
    assert forall|x: int, y: int| 0 <= x < y < n implies #[trigger] next[x] != #[trigger] next[y]
        && ordered_from(names[next[x] as int], names[next[y] as int], position) by {
        let i = lemma_source(names, order, position, x, BUCKETS as int);
        let j = lemma_source(names, order, position, y, BUCKETS as int);
        assert(next[place(names, order, position, i)] == order[i]);
        assert(next[place(names, order, position, j)] == order[j]);
        lemma_places(names, order, position, j, i);
        if i < j {
            assert(order[i] != order[j]);
            assert(ordered_from(names[order[i] as int], names[order[j] as int], position + 1));
        } else {
            assert(order[j] != order[i]);
        }
    }
    assert forall|i: int| 0 <= i < n implies #[trigger] is_listed(next, i) by {
        assert(is_listed(order, i));
        let k = choose|k: int| 0 <= k < order.len() && #[trigger] order[k] == i;
        lemma_places(names, order, position, k, k);
        assert(next[place(names, order, position, k)] == order[k]);
    }
}

fn radix_bucket(name: &str, position: usize) -> (bucket: usize)
    ensures
        bucket == bucket_of(utf8(name@), position as int),
        bucket < BUCKETS,
{
    let bytes: &[u8] = name.as_bytes();
    if position < bytes.len() {
        bytes[position] as usize + 1
    } else {
        0
    }
}

/// Counts the names of each bucket.
fn count_buckets(names: &[String], order: &Vec<usize>, position: usize) -> (counts: Vec<usize>)
    requires
        is_arrangement(order@, names@.len() as int),
    ensures
        counts@.len() == BUCKETS,
        forall|b: int|
            0 <= b < BUCKETS ==> #[trigger] counts@[b] == tally(
                texts_of(names@),
                order@,
                position as int,
                b,
                order@.len() as int,
            ),
{
    let mut counts: Vec<usize> = vec![0usize; 257];
    let mut k: usize = 0;
    let ghost texts = texts_of(names@);
    while k < order.len()
        invariant
            is_arrangement(order@, names@.len() as int),
            texts == texts_of(names@),
            k <= order@.len(),
            counts@.len() == BUCKETS,
            forall|b: int|
                0 <= b < BUCKETS ==> #[trigger] counts@[b] == tally(
                    texts,
                    order@,
                    position as int,
                    b,
                    k as int,
                ),
        decreases order@.len() - k,
    {
        let bucket: usize = radix_bucket(names[order[k]].as_str(), position);
        proof {
            lemma_tally_grows(texts, order@, position as int, bucket as int, k as int, k as int);
        }
        counts.set(bucket, counts[bucket] + 1);
        k += 1;
    }
    counts
}

/// Where the names of each bucket begin.
fn bucket_starts(counts: &Vec<usize>, names: &[String], order: &Vec<usize>, position: usize) -> (next:
    Vec<usize>)
    requires
        is_arrangement(order@, names@.len() as int),
        counts@.len() == BUCKETS,
        forall|b: int|
            0 <= b < BUCKETS ==> #[trigger] counts@[b] == tally(
                texts_of(names@),
                order@,
                position as int,
                b,
                order@.len() as int,
            ),
    ensures
        next@.len() == BUCKETS,
        forall|b: int|
            0 <= b < BUCKETS ==> #[trigger] next@[b] == below(
                texts_of(names@),
                order@,
                position as int,
                b,
                order@.len() as int,
            ),
{
    let total: usize = order.len();
    let mut next: Vec<usize> = Vec::new();
    let mut running: usize = 0;
    let mut bucket: usize = 0;
    let ghost texts = texts_of(names@);
    while bucket < BUCKETS
        invariant
            total == order@.len(),
            texts == texts_of(names@),
            bucket <= BUCKETS,
            counts@.len() == BUCKETS,
            forall|b: int|
                0 <= b < BUCKETS ==> #[trigger] counts@[b] == tally(
                    texts,
                    order@,
                    position as int,
                    b,
                    order@.len() as int,
                ),
            running == below(texts, order@, position as int, bucket as int, order@.len() as int),
            next@.len() == bucket,
            forall|b: int|
                0 <= b < bucket ==> #[trigger] next@[b] == below(
                    texts,
                    order@,
                    position as int,
                    b,
                    order@.len() as int,
                ),
        decreases BUCKETS - bucket,
    {
        proof {
            lemma_below_all(texts, order@, position as int, total as int);
            lemma_below_grows(
                texts,
                order@,
                position as int,
                bucket as int,
                BUCKETS as int,
                total as int,
            );
        }
        next.push(running);
        running = running + counts[bucket];
        bucket += 1;
    }
    next
}

/// One pass: the order, distributed stably by the bucket at a position.
fn distribute(names: &[String], order: &Vec<usize>, position: usize) -> (sorted: Vec<usize>)
    requires
        position < POSITIONS,
        is_arrangement(order@, names@.len() as int),
        sorts(texts_of(names@), order@, position + 1),
    ensures
        is_arrangement(sorted@, names@.len() as int),
        sorts(texts_of(names@), sorted@, position as int),
{
    let counts: Vec<usize> = count_buckets(names, order, position);
    let mut next: Vec<usize> = bucket_starts(&counts, names, order, position);
    let mut sorted: Vec<usize> = vec![0usize; order.len()];
    let mut k: usize = 0;
    let ghost texts = texts_of(names@);
    while k < order.len()
        invariant
            0 <= position < POSITIONS,
            is_arrangement(order@, names@.len() as int),
            texts == texts_of(names@),
            k <= order@.len(),
            sorted@.len() == order@.len(),
            next@.len() == BUCKETS,
            forall|b: int|
                0 <= b < BUCKETS ==> #[trigger] next@[b] == below(
                    texts,
                    order@,
                    position as int,
                    b,
                    order@.len() as int,
                ) + tally(texts, order@, position as int, b, k as int),
            forall|i: int|
                0 <= i < k ==> sorted@[#[trigger] place(texts, order@, position as int, i)]
                    == order@[i],
        decreases order@.len() - k,
    {
        let index: usize = order[k];
        let bucket: usize = radix_bucket(names[index].as_str(), position);
        let target: usize = next[bucket];
        proof {
            assert(target == place(texts, order@, position as int, k as int));
            lemma_places(texts, order@, position as int, k as int, k as int);
            assert forall|i: int| 0 <= i < k implies #[trigger] place(
                texts,
                order@,
                position as int,
                i,
            ) != target && 0 <= place(texts, order@, position as int, i) < order@.len() by {
                lemma_places(texts, order@, position as int, i, k as int);
                lemma_places(texts, order@, position as int, k as int, i);
            }
        }
        sorted.set(target, index);
        next.set(bucket, target + 1);
        k += 1;
    }
    proof {
        lemma_distributed(texts, order@, sorted@, position as int);
    }
    sorted
}

/// The order in which the names are sorted.
pub fn radix_order(names: &[String]) -> (order: Vec<usize>)
    ensures
        is_arrangement(order@, names@.len() as int),
        sorts(texts_of(names@), order@, 0),
{
    let mut order: Vec<usize> = Vec::new();
    while order.len() < names.len()
        invariant
            order@.len() <= names@.len(),
            forall|x: int| 0 <= x < order@.len() ==> #[trigger] order@[x] == x,
        decreases names@.len() - order@.len(),
    {
        let index: usize = order.len();
        order.push(index);
    }
    proof {
        assert forall|i: int| 0 <= i < names@.len() implies #[trigger] is_listed(order@, i) by {
            assert(order@[i] == i);
        }
    }
    let mut position: usize = POSITIONS;
    while position > 0
        invariant
            position <= POSITIONS,
            is_arrangement(order@, names@.len() as int),
            sorts(texts_of(names@), order@, position as int),
        decreases position,
    {
        position -= 1;
        order = distribute(names, &order, position);
    }
    order
}

/// Names of no more positions than are looked at that come no later than each other are the same.
proof fn lemma_order_antisymmetric(a: Seq<u8>, b: Seq<u8>, position: int)
    requires
        0 <= position <= POSITIONS,
        a.len() <= POSITIONS,
        b.len() <= POSITIONS,
        ordered_from(a, b, position),
        ordered_from(b, a, position),
    ensures
        forall|q: int|
            position <= q < POSITIONS ==> #[trigger] bucket_of(a, q) == bucket_of(b, q),
    decreases POSITIONS - position,
{
    if position < POSITIONS {
        lemma_order_antisymmetric(a, b, position + 1);
    }
}

proof fn lemma_same_buckets(a: Seq<u8>, b: Seq<u8>)
    requires
        a.len() <= POSITIONS,
        b.len() <= POSITIONS,
        forall|q: int| 0 <= q < POSITIONS ==> #[trigger] bucket_of(a, q) == bucket_of(b, q),
    ensures
        a == b,
{
    if a.len() < b.len() {
        assert(bucket_of(a, a.len() as int) == bucket_of(b, a.len() as int));
    } else if b.len() < a.len() {
        assert(bucket_of(a, b.len() as int) == bucket_of(b, b.len() as int));
    }
    assert forall|q: int| 0 <= q < a.len() implies a[q] == b[q] by {
        assert(bucket_of(a, q) == bucket_of(b, q));
    }
    assert(a =~= b);
}

/// Two equal names have all names between them in the order equal too.
proof fn lemma_equal_neighbours(names: Seq<Seq<u8>>, order: Seq<usize>, x: int, y: int)
    requires
        is_arrangement(order, names.len() as int),
        sorts(names, order, 0),
        forall|i: int| 0 <= i < names.len() ==> (#[trigger] names[i]).len() <= POSITIONS,
        0 <= x < y < order.len(),
        names[order[x] as int] == names[order[y] as int],
    ensures
        names[order[x] as int] == names[order[x + 1] as int],
{
    if x + 1 < y {
        let a = names[order[x] as int];
        let b = names[order[x + 1] as int];
        assert(ordered_from(names[order[x] as int], names[order[x + 1] as int], 0));
        assert(ordered_from(names[order[x + 1] as int], names[order[y] as int], 0));
        lemma_order_antisymmetric(a, b, 0);
        lemma_same_buckets(a, b);
    }
}

/// Whether some name stands twice, by looking at neighbours in the sorted order.
pub fn has_equal_neighbours(names: &[String], order: &Vec<usize>) -> (twice: bool)
    requires
        is_arrangement(order@, names@.len() as int),
        sorts(texts_of(names@), order@, 0),
        forall|i: int|
            0 <= i < names@.len() ==> (#[trigger] texts_of(names@)[i]).len() <= POSITIONS,
    ensures
        twice == !texts_of(names@).no_duplicates(),
{
    let ghost texts = texts_of(names@);
    let mut k: usize = 0;
    while k < order.len() && k + 1 < order.len()
        invariant
            is_arrangement(order@, names@.len() as int),
            texts == texts_of(names@),
            k <= order@.len(),
            forall|x: int|
                0 <= x < k ==> texts[#[trigger] order@[x] as int] != texts[order@[x + 1] as int],
        decreases order@.len() - k,
    {
        assert(order@[k as int] != order@[k + 1]);
        assert(texts[order@[k as int] as int] == utf8(names@[order@[k as int] as int]@));
        assert(texts[order@[k + 1] as int] == utf8(names@[order@[k + 1] as int]@));
        if same_text(names[order[k]].as_str(), names[order[k + 1]].as_str()) {
            assert(!texts.no_duplicates());
            return true;
        }
        k += 1;
    }
    proof {
        if !texts.no_duplicates() {
            let (i, j) = choose|i: int, j: int|
                0 <= i < texts.len() && 0 <= j < texts.len() && i != j && texts[i] == texts[j];
            assert(is_listed(order@, i) && is_listed(order@, j));
            let x = choose|x: int| 0 <= x < order@.len() && #[trigger] order@[x] == i;
            let y = choose|y: int| 0 <= y < order@.len() && #[trigger] order@[y] == j;
            if x < y {
                lemma_equal_neighbours(texts, order@, x, y);
                assert(texts[order@[x] as int] != texts[order@[x + 1] as int]);
            } else {
                lemma_equal_neighbours(texts, order@, y, x);
                assert(texts[order@[y] as int] != texts[order@[y + 1] as int]);
            }
        }
    }
    false
}

} // verus!
