//! Per-name running statistics, updated one record at a time, and the merge
//! of two partial tables.
use vstd::prelude::*;
use crate::record::{first_occur, lemma_first_index, parse_record, parse_record_spec, NameKey};
use crate::scan::{
    chunked_records, concat, lemma_chunking_preserves_records,
    lemma_records_first, lemma_records_free, records,
};

verus! {

/// Statistics of one name, in tenths.
pub ghost struct Stats {
    pub min: int,
    pub max: int,
    pub sum: int,
    pub count: int,
}

/// The statistics of a single observation.
pub open spec fn single(v: int) -> Stats {
    Stats { min: v, max: v, sum: v, count: 1 }
}

/// Two statistics of one name taken together.
pub open spec fn combine(a: Stats, b: Stats) -> Stats {
    Stats {
        min: if a.min <= b.min { a.min } else { b.min },
        max: if a.max >= b.max { a.max } else { b.max },
        sum: a.sum + b.sum,
        count: a.count + b.count,
    }
}

/// What statistics of values in `-999..=999` can be.
pub open spec fn valid(s: Stats) -> bool {
    &&& -999 <= s.min <= s.max <= 999
    &&& s.count >= 1
    &&& s.count * s.min <= s.sum <= s.count * s.max
}

/// `m` with `s` added under key `k`.
pub open spec fn absorb(m: Map<Seq<u8>, Stats>, k: Seq<u8>, s: Stats) -> Map<Seq<u8>, Stats> {
    m.insert(
        k,
        if m.contains_key(k) {
            combine(m[k], s)
        } else {
            s
        },
    )
}

/// The union of two tables, combining the statistics of keys in both.
pub open spec fn merged(a: Map<Seq<u8>, Stats>, b: Map<Seq<u8>, Stats>) -> Map<Seq<u8>, Stats> {
    Map::new(
        |k: Seq<u8>| a.contains_key(k) || b.contains_key(k),
        |k: Seq<u8>|
            if a.contains_key(k) && b.contains_key(k) {
                combine(a[k], b[k])
            } else if a.contains_key(k) {
                a[k]
            } else {
                b[k]
            },
    )
}

/// `m` after decoding the records in order; `None` when one is malformed.
pub open spec fn table_of(m: Map<Seq<u8>, Stats>, recs: Seq<Seq<u8>>, sep: u8) -> Option<
    Map<Seq<u8>, Stats>,
>
    decreases recs.len(),
{
    if recs.len() == 0 {
        Some(m)
    } else {
        match table_of(m, recs.drop_last(), sep) {
            Some(t) => match parse_record_spec(recs.last(), sep) {
                Some((k, v)) => Some(absorb(t, k, single(v))),
                None => None,
            },
            None => None,
        }
    }
}

pub proof fn lemma_valid_bounds(s: Stats)
    requires
        valid(s),
    ensures
        -999 * s.count <= s.sum <= 999 * s.count,
{
    assert(s.count * s.min >= s.count * -999) by (nonlinear_arith)
        requires
            s.count >= 1,
            s.min >= -999,
    ;
    assert(s.count * s.max <= s.count * 999) by (nonlinear_arith)
        requires
            s.count >= 1,
            s.max <= 999,
    ;
}

pub proof fn lemma_combine_valid(a: Stats, b: Stats)
    requires
        valid(a),
        valid(b),
    ensures
        valid(combine(a, b)),
{
    let c = combine(a, b);
    assert(a.count * c.min <= a.count * a.min) by (nonlinear_arith)
        requires
            a.count >= 1,
            c.min <= a.min,
    ;
    assert(b.count * c.min <= b.count * b.min) by (nonlinear_arith)
        requires
            b.count >= 1,
            c.min <= b.min,
    ;
    assert(a.count * c.max >= a.count * a.max) by (nonlinear_arith)
        requires
            a.count >= 1,
            c.max >= a.max,
    ;
    assert(b.count * c.max >= b.count * b.max) by (nonlinear_arith)
        requires
            b.count >= 1,
            c.max >= b.max,
    ;
    assert(c.count * c.min == a.count * c.min + b.count * c.min) by (nonlinear_arith)
        requires
            c.count == a.count + b.count,
    ;
    assert(c.count * c.max == a.count * c.max + b.count * c.max) by (nonlinear_arith)
        requires
            c.count == a.count + b.count,
    ;
}

/// Merging tables does not depend on their order.
pub proof fn lemma_merge_commutative(a: Map<Seq<u8>, Stats>, b: Map<Seq<u8>, Stats>)
    ensures
        merged(a, b) == merged(b, a),
{
    assert(merged(a, b) =~= merged(b, a));
}

/// Merging tables does not depend on their grouping.
pub proof fn lemma_merge_associative(
    a: Map<Seq<u8>, Stats>,
    b: Map<Seq<u8>, Stats>,
    c: Map<Seq<u8>, Stats>,
)
    ensures
        merged(merged(a, b), c) == merged(a, merged(b, c)),
{
    assert(merged(merged(a, b), c) =~= merged(a, merged(b, c)));
}

/// Merging with an empty table changes nothing.
pub proof fn lemma_merge_empty(a: Map<Seq<u8>, Stats>)
    ensures
        merged(a, Map::empty()) == a,
        merged(Map::empty(), a) == a,
{
    assert(merged(a, Map::empty()) =~= a);
    assert(merged(Map::empty(), a) =~= a);
}

pub proof fn lemma_merged_absorb(
    a: Map<Seq<u8>, Stats>,
    b: Map<Seq<u8>, Stats>,
    k: Seq<u8>,
    s: Stats,
)
    ensures
        merged(a, absorb(b, k, s)) == absorb(merged(a, b), k, s),
{
    assert(merged(a, absorb(b, k, s)) =~= absorb(merged(a, b), k, s));
}

pub proof fn lemma_merged_insert_new(
    a: Map<Seq<u8>, Stats>,
    b: Map<Seq<u8>, Stats>,
    k: Seq<u8>,
    s: Stats,
)
    requires
        !b.contains_key(k),
    ensures
        merged(a, b.insert(k, s)) == absorb(merged(a, b), k, s),
{
    assert(merged(a, b.insert(k, s)) =~= absorb(merged(a, b), k, s));
}

/// Decoding records into a table is merging that table with a fresh table
/// of the same records: how records are shared out among tables that are
/// merged in the end does not change the result.
pub proof fn lemma_decode_is_merge(a: Map<Seq<u8>, Stats>, recs: Seq<Seq<u8>>, sep: u8)
    ensures
        (table_of(a, recs, sep) is Some) == (table_of(Map::empty(), recs, sep) is Some),
        table_of(a, recs, sep) is Some ==> table_of(a, recs, sep)->0 == merged(
            a,
            table_of(Map::empty(), recs, sep)->0,
        ),
    decreases recs.len(),
{
    if recs.len() == 0 {
        lemma_merge_empty(a);
    } else {
        lemma_decode_is_merge(a, recs.drop_last(), sep);
        if let Some(t) = table_of(Map::empty(), recs.drop_last(), sep) {
            if let Some((k, v)) = parse_record_spec(recs.last(), sep) {
                lemma_merged_absorb(a, t, k, single(v));
            }
        }
    }
}

/// Once a record is malformed, the records after it cannot mend the stream.
pub proof fn lemma_table_of_none(
    m: Map<Seq<u8>, Stats>,
    r1: Seq<Seq<u8>>,
    r2: Seq<Seq<u8>>,
    sep: u8,
)
    requires
        table_of(m, r1, sep) is None,
    ensures
        table_of(m, r1 + r2, sep) is None,
    decreases r2.len(),
{
    if r2.len() == 0 {
        assert(r1 + r2 =~= r1);
    } else {
        lemma_table_of_none(m, r1, r2.drop_last(), sep);
        assert((r1 + r2).drop_last() =~= r1 + r2.drop_last());
    }
}

/// Chunk boundaries never change the final table: feeding a stream in
/// chunks, at whatever positions it is cut, gives the table of the unsplit
/// stream.
pub proof fn lemma_chunking_preserves_table(chunks: Seq<Seq<u8>>, sep: u8, term: u8)
    ensures
        table_of(Map::empty(), chunked_records(chunks, term), sep) == table_of(
            Map::empty(),
            records(concat(chunks), term),
            sep,
        ),
        table_of(Map::empty(), chunked_records(chunks, term), sep) == table_of(
            Map::empty(),
            chunked_records(seq![concat(chunks)], term),
            sep,
        ),
{
    lemma_chunking_preserves_records(chunks, term);
}

/// Running statistics of one name, in tenths.
#[derive(Clone, Copy, Debug, PartialEq, Eq, Structural)]
pub struct Aggregate {
    min: i16,
    max: i16,
    sum: i128,
    count: u64,
}

impl View for Aggregate {
    type V = Stats;

    closed spec fn view(&self) -> Stats {
        Stats { min: self.min as int, max: self.max as int, sum: self.sum as int, count: self.count as int }
    }
}

impl Aggregate {
    /// The statistics of one observation.
    pub fn first(v: i16) -> (r: Aggregate)
        requires
            -999 <= v <= 999,
        ensures
            r@ == single(v as int),
            valid(r@),
    {
        Aggregate { min: v, max: v, sum: v as i128, count: 1 }
    }

    pub fn min(&self) -> (r: i16)
        ensures
            r as int == self@.min,
    {
        self.min
    }

    pub fn max(&self) -> (r: i16)
        ensures
            r as int == self@.max,
    {
        self.max
    }

    pub fn sum(&self) -> (r: i128)
        ensures
            r as int == self@.sum,
    {
        self.sum
    }

    pub fn count(&self) -> (r: u64)
        ensures
            r as int == self@.count,
    {
        self.count
    }

    /// Takes in the statistics of `other`.
    pub fn combine_with(&mut self, other: &Aggregate)
        requires
            valid(old(self)@),
            valid(other@),
            old(self)@.count + other@.count <= u64::MAX,
        ensures
            final(self)@ == combine(old(self)@, other@),
            valid(final(self)@),
    {
        proof {
            lemma_valid_bounds(self@);
            lemma_valid_bounds(other@);
            lemma_combine_valid(self@, other@);
        }
        self.count = self.count + other.count;
        self.sum = self.sum + other.sum;
        if other.max > self.max {
            self.max = other.max;
        }
        if other.min < self.min {
            self.min = other.min;
        }
    }
}

/// Reported for a record without a separator or with a malformed value: the
/// index of that record among the records decoded by the call.
#[derive(Clone, Copy, Debug, PartialEq, Eq, Structural)]
pub struct Malformed {
    pub record: usize,
}

/// Number of buckets of a table's key index.
pub const BUCKETS: usize = 4096;

/// The bucket of a key in a table's key index.
pub open spec fn bucket_of(k: Seq<u8>) -> nat
    decreases k.len(),
{
    if k.len() == 0 {
        0
    } else {
        ((bucket_of(k.drop_last()) * 31 + k.last()) % (BUCKETS as int)) as nat
    }
}

fn bucket_index(key: &NameKey) -> (r: usize)
    ensures
        r == bucket_of(key@),
        r < BUCKETS,
{
    let bytes = key.as_bytes();
    let mut h: usize = 0;
    let mut i: usize = 0;
    while i < bytes.len()
        invariant
            i <= bytes@.len(),
            bytes@ == key@,
            h == bucket_of(bytes@.subrange(0, i as int)),
            h < BUCKETS,
        decreases bytes@.len() - i,
    {
        proof {
            assert(bytes@.subrange(0, i + 1).drop_last() =~= bytes@.subrange(0, i as int));
        }
        h = (h * 31 + bytes[i] as usize) % BUCKETS;
        i = i + 1;
    }
    proof {
        assert(bytes@.subrange(0, i as int) =~= bytes@);
    }
    h
}

/// A table from name key to statistics, keys unique. Each key's position
/// is listed in the bucket of the key, so that a lookup reads one bucket.
pub struct AggregationTable {
    keys: Vec<NameKey>,
    aggs: Vec<Aggregate>,
    buckets: Vec<Vec<usize>>,
    seen: u64,
    contents: Ghost<Map<Seq<u8>, Stats>>,
}

impl View for AggregationTable {
    type V = Map<Seq<u8>, Stats>;

    closed spec fn view(&self) -> Map<Seq<u8>, Stats> {
        self.contents@
    }
}

impl AggregationTable {
    /// How many observations went into the table.
    pub closed spec fn seen(&self) -> nat {
        self.seen as nat
    }

    /// The keys in the order in which the table holds them.
    pub closed spec fn key_seq(&self) -> Seq<Seq<u8>> {
        self.keys@.map_values(|k: NameKey| k@)
    }

    pub closed spec fn wf(&self) -> bool {
        &&& self.keys@.len() == self.aggs@.len()
        &&& self.buckets@.len() == BUCKETS
        &&& forall|i: int|
            0 <= i < self.keys@.len() ==> self.buckets@[bucket_of(#[trigger] self.keys@[i]@) as int]@.contains(
                i as usize,
            )
        &&& forall|b: int, m: int|
            0 <= b < BUCKETS && 0 <= m < self.buckets@[b]@.len() ==> #[trigger] self.buckets@[b]@[m]
                < self.keys@.len()
        &&& forall|i: int|
            0 <= i < self.keys@.len() ==> {
                &&& self.contents@.contains_key(#[trigger] self.keys@[i]@)
                &&& self.contents@[self.keys@[i]@] == self.aggs@[i]@
                &&& valid(self.aggs@[i]@)
                &&& self.aggs@[i]@.count <= self.seen
            }
        &&& forall|i: int, j: int|
            0 <= i < j < self.keys@.len() ==> #[trigger] self.keys@[i]@ != #[trigger] self.keys@[j]@
        &&& forall|k: Seq<u8>|
            #[trigger] self.contents@.contains_key(k) ==> exists|i: int|
                0 <= i < self.keys@.len() && #[trigger] self.keys@[i]@ == k
    }

    /// What a well-formed table holds, seen through its keys.
    pub proof fn lemma_wf(&self)
        requires
            self.wf(),
        ensures
            forall|k: Seq<u8>| #[trigger]
                self@.contains_key(k) ==> valid(self@[k]) && self@[k].count <= self.seen(),
            forall|i: int|
                0 <= i < self.key_seq().len() ==> self@.contains_key(#[trigger] self.key_seq()[i]),
            forall|k: Seq<u8>| #[trigger]
                self@.contains_key(k) ==> self.key_seq().contains(k),
            forall|i: int, j: int|
                0 <= i < j < self.key_seq().len() ==> #[trigger] self.key_seq()[i]
                    != #[trigger] self.key_seq()[j],
    {
        assert forall|k: Seq<u8>| #[trigger] self@.contains_key(k) implies valid(self@[k])
            && self@[k].count <= self.seen() && self.key_seq().contains(k) by {
            let i = choose|i: int| 0 <= i < self.keys@.len() && #[trigger] self.keys@[i]@ == k;
            assert(self.key_seq()[i] == k);
        }
        assert forall|i: int, j: int|
            0 <= i < j < self.key_seq().len() implies #[trigger] self.key_seq()[i]
            != #[trigger] self.key_seq()[j] by {
            assert(self.keys@[i]@ != self.keys@[j]@);
        }
    }

    /// An empty table.
    pub fn new() -> (r: AggregationTable)
        ensures
            r.wf(),
            r@ == Map::<Seq<u8>, Stats>::empty(),
            r.seen() == 0,
    {
        let mut buckets: Vec<Vec<usize>> = Vec::with_capacity(BUCKETS);
        let mut b: usize = 0;
        while b < BUCKETS
            invariant
                b <= BUCKETS,
                buckets@.len() == b,
                forall|c: int| 0 <= c < b ==> (#[trigger] buckets@[c])@.len() == 0,
            decreases BUCKETS - b,
        {
            buckets.push(Vec::new());
            b = b + 1;
        }
        AggregationTable {
            keys: Vec::new(),
            aggs: Vec::new(),
            buckets,
            seen: 0,
            contents: Ghost(Map::empty()),
        }
    }

    /// Number of observations decoded into or merged into the table.
    pub fn records_seen(&self) -> (r: u64)
        ensures
            r as int == self.seen(),
    {
        self.seen
    }

    /// Number of distinct keys.
    pub fn len(&self) -> (r: usize)
        requires
            self.wf(),
        ensures
            r == self.key_seq().len(),
    {
        self.keys.len()
    }

    /// The key at position `i` of the table's order.
    pub fn key_at(&self, i: usize) -> (r: &NameKey)
        requires
            self.wf(),
            i < self.key_seq().len(),
        ensures
            r@ == self.key_seq()[i as int],
    {
        &self.keys[i]
    }

    /// The statistics of the key at position `i` of the table's order.
    pub fn aggregate_at(&self, i: usize) -> (r: Aggregate)
        requires
            self.wf(),
            i < self.key_seq().len(),
        ensures
            r@ == self@[self.key_seq()[i as int]],
            valid(r@),
    {
        self.aggs[i]
    }

    fn find(&self, key: &NameKey) -> (r: Option<usize>)
        requires
            self.wf(),
        ensures
            match r {
                Some(i) => i < self.keys@.len() && self.keys@[i as int]@ == key@,
                None => !self@.contains_key(key@),
            },
    {
        let n = self.keys.len();
        let h = bucket_index(key);
        let bucket = &self.buckets[h];
        let mut m: usize = 0;
        while m < bucket.len()
            invariant
                self.wf(),
                n == self.keys@.len(),
                h == bucket_of(key@),
                bucket@ == self.buckets@[h as int]@,
                m <= bucket@.len(),
                forall|j: int| 0 <= j < m ==> self.keys@[#[trigger] bucket@[j] as int]@ != key@,
            decreases bucket@.len() - m,
        {
            let idx = bucket[m];
            if self.keys[idx].same_as(key) {
                return Some(idx);
            }
            m = m + 1;
        }
        proof {
            if self@.contains_key(key@) {
                let i = choose|i: int| 0 <= i < self.keys@.len() && #[trigger] self.keys@[i]@ == key@;
                let iu = i as usize;
                assert(bucket_of(self.keys@[i]@) == h);
                assert(self.buckets@[h as int]@.contains(iu));
                let j = choose|j: int| 0 <= j < bucket@.len() && bucket@[j] == iu;
                assert(self.keys@[bucket@[j] as int]@ != key@);

            }
        }
        None
    }

    /// The statistics of `key`, if it was seen.
    pub fn get(&self, key: &NameKey) -> (r: Option<Aggregate>)
        requires
            self.wf(),
        ensures
            match r {
                Some(a) => self@.contains_key(key@) && a@ == self@[key@],
                None => !self@.contains_key(key@),
            },
    {
        match self.find(key) {
            Some(i) => Some(self.aggs[i]),
            None => None,
        }
    }

    fn add_seen(&mut self, n: u64)
        requires
            old(self).wf(),
            old(self).seen() + n <= u64::MAX,
        ensures
            final(self).wf(),
            final(self)@ == old(self)@,
            final(self).seen() == old(self).seen() + n,
    {
        self.seen = self.seen + n;
        assert forall|i: int|
            0 <= i < self.keys@.len() implies self.aggs@[i]@.count <= self.seen by {
            assert(old(self).contents@.contains_key(old(self).keys@[i]@));
        }
    }

    fn absorb_aggregate(&mut self, key: NameKey, agg: Aggregate)
        requires
            old(self).wf(),
            valid(agg@),
            agg@.count <= old(self).seen(),
            old(self)@.contains_key(key@) ==> old(self)@[key@].count + agg@.count
                <= old(self).seen(),
        ensures
            final(self).wf(),
            final(self)@ == absorb(old(self)@, key@, agg@),
            final(self).seen() == old(self).seen(),
    {
        let ghost k = key@;
        match self.find(&key) {
            Some(i) => {
                let mut a = self.aggs[i];
                a.combine_with(&agg);
                self.aggs[i] = a;
                self.contents = Ghost(absorb(self.contents@, k, agg@));
                assert forall|j: int, l: int|
                    0 <= j < l < self.keys@.len() implies #[trigger] self.keys@[j]@
                    != #[trigger] self.keys@[l]@ by {}
                assert forall|kk: Seq<u8>| #[trigger]
                    self.contents@.contains_key(kk) implies exists|j: int|
                    0 <= j < self.keys@.len() && #[trigger] self.keys@[j]@ == kk by {
                    if kk == k {
                        assert(self.keys@[i as int]@ == kk);
                    } else {
                        assert(old(self).contents@.contains_key(kk));
                        let j = choose|j: int|
                            0 <= j < self.keys@.len() && #[trigger] old(self).keys@[j]@ == kk;
                        assert(self.keys@[j]@ == kk);
                    }
                }
            },
            None => {
                let h = bucket_index(&key);
                let n = self.keys.len();
                self.buckets[h].push(n);
                self.keys.push(key);
                self.aggs.push(agg);
                self.contents = Ghost(absorb(self.contents@, k, agg@));
                assert forall|j: int|
                    0 <= j < self.keys@.len() implies self.buckets@[bucket_of(
                    #[trigger] self.keys@[j]@,
                ) as int]@.contains(j as usize) by {
                    if j < n {
                        let bj = bucket_of(self.keys@[j]@) as int;
                        assert(old(self).buckets@[bj]@.contains(j as usize));
                        let m = choose|m: int|
                            0 <= m < old(self).buckets@[bj]@.len() && old(self).buckets@[bj]@[m]
                                == j as usize;
                        assert(self.buckets@[bj]@[m] == j as usize);
                    } else {
                        assert(self.buckets@[h as int]@.last() == n);
                    }
                }
                assert forall|b: int, m: int|
                    0 <= b < BUCKETS && 0 <= m < self.buckets@[b]@.len() implies #[trigger] self.buckets@[b]@[m]
                    < self.keys@.len() by {
                    if b != h || m < old(self).buckets@[b]@.len() {
                        assert(self.buckets@[b]@[m] == old(self).buckets@[b]@[m]);
                    }
                }
                assert forall|j: int|
                    0 <= j < self.keys@.len() implies {
                    &&& self.contents@.contains_key(#[trigger] self.keys@[j]@)
                    &&& self.contents@[self.keys@[j]@] == self.aggs@[j]@
                    &&& valid(self.aggs@[j]@)
                    &&& self.aggs@[j]@.count <= self.seen
                } by {
                    if j < n {
                        assert(self.keys@[j]@ != k);
                    }
                }
                assert forall|kk: Seq<u8>| #[trigger]
                    self.contents@.contains_key(kk) implies exists|j: int|
                    0 <= j < self.keys@.len() && #[trigger] self.keys@[j]@ == kk by {
                    if kk == k {
                        assert(self.keys@[n as int]@ == kk);
                    } else {
                        let j = choose|j: int| 0 <= j < n && #[trigger] old(self).keys@[j]@ == kk;
                        assert(self.keys@[j]@ == kk);
                    }
                }
            },
        }
    }

    /// Decodes one record: a record that parses adds its value under its
    /// key; a malformed one leaves the table as it is.
    pub fn decode_slice(&mut self, record: &[u8], sep: u8) -> (r: Result<(), Malformed>)
        requires
            old(self).wf(),
            old(self).seen() < u64::MAX,
        ensures
            final(self).wf(),
            match parse_record_spec(record@, sep) {
                Some((k, v)) => {
                    &&& r is Ok
                    &&& final(self)@ == absorb(old(self)@, k, single(v))
                    &&& final(self).seen() == old(self).seen() + 1
                },
                None => {
                    &&& r == Err::<(), Malformed>(Malformed { record: 0 })
                    &&& final(self)@ == old(self)@
                    &&& final(self).seen() == old(self).seen()
                },
            },
    {
        match parse_record(record, sep) {
            None => Err(Malformed { record: 0 }),
            Some((key, v)) => {
                proof {
                    self.lemma_wf();
                }
                self.add_seen(1);
                self.absorb_aggregate(key, Aggregate::first(v));
                Ok(())
            },
        }
    }

    /// Decodes every record of `region`, in order, the last one possibly
    /// unterminated. Stops at the first malformed record and reports its
    /// index; the records before it stay decoded.
    pub fn decode_region(&mut self, region: &[u8], sep: u8, term: u8) -> (r: Result<(), Malformed>)
        requires
            old(self).wf(),
            old(self).seen() + region@.len() <= u64::MAX,
        ensures
            final(self).wf(),
            (r is Ok) == (table_of(old(self)@, records(region@, term), sep) is Some),
            match r {
                Ok(()) => {
                    &&& table_of(old(self)@, records(region@, term), sep) == Some(final(self)@)
                    &&& final(self).seen() == old(self).seen() + records(region@, term).len()
                },
                Err(e) => {
                    &&& e.record < records(region@, term).len()
                    &&& parse_record_spec(records(region@, term)[e.record as int], sep) is None
                    &&& table_of(old(self)@, records(region@, term).take(e.record as int), sep)
                        == Some(final(self)@)
                },
            },
    {
        let len = region.len();
        let mut pos: usize = 0;
        let mut n: usize = 0;
        let ghost done: Seq<Seq<u8>> = Seq::empty();
        let ghost start = self@;
        proof {
            assert(region@.subrange(0, len as int) =~= region@);
            assert(done + records(region@, term) =~= records(region@, term));
        }
        while pos < len
            invariant
                self.wf(),
                len == region@.len(),
                pos <= len,
                n == done.len(),
                n <= pos,
                start == old(self)@,
                old(self).seen() + len <= u64::MAX,
                records(region@, term) == done + records(region@.subrange(pos as int, len as int), term),
                table_of(start, done, sep) == Some(self@),
                self.seen() == old(self).seen() + n,
            decreases len - pos,
        {
            let rest = &region[pos..len];
            let ghost rest_records = records(rest@, term);
            let (piece_end, next) = match first_occur(rest, term) {
                Some(q) => {
                    proof {
                        lemma_first_index(rest@, term);
                        lemma_records_first(rest@, q as int, term);
                        assert(rest@.subrange(q + 1, rest@.len() as int) =~= region@.subrange(
                            pos + q + 1,
                            len as int,
                        ));
                    }
                    (pos + q, pos + q + 1)
                },
                None => {
                    proof {
                        lemma_first_index(rest@, term);
                        lemma_records_free(rest@, term);
                        assert(rest@.subrange(0, rest@.len() as int) =~= rest@);
                        assert(region@.subrange(len as int, len as int) =~= Seq::<u8>::empty());
                        assert(seq![rest@] + records(Seq::<u8>::empty(), term) =~= seq![rest@]);
                    }
                    (len, len)
                },
            };
            let piece = &region[pos..piece_end];
            proof {
                assert(piece@ =~= rest@.subrange(0, piece_end - pos));
                assert(rest_records == seq![piece@] + records(region@.subrange(next as int, len as int), term));
                assert(records(region@, term) == done.push(piece@) + records(region@.subrange(next as int, len as int), term)) by {
                    assert(done + (seq![piece@] + records(region@.subrange(next as int, len as int), term))
                        =~= done.push(piece@) + records(region@.subrange(next as int, len as int), term));
                }
                assert(done.push(piece@).drop_last() =~= done);
            }
            match self.decode_slice(piece, sep) {
                Err(_) => {
                    proof {
                        let all = records(region@, term);
                        let more = records(region@.subrange(next as int, len as int), term);
                        assert(all[n as int] == piece@);
                        assert(all.take(n as int) =~= done);
                        lemma_table_of_none(start, done.push(piece@), more, sep);
                    }
                    return Err(Malformed { record: n });
                },
                Ok(()) => {},
            }
            proof {
                done = done.push(piece@);
            }
            n = n + 1;
            pos = next;
        }
        proof {
            assert(region@.subrange(pos as int, len as int) =~= Seq::<u8>::empty());
            assert(done + Seq::<Seq<u8>>::empty() =~= done);
        }
        Ok(())
    }

    spec fn first_keys(&self, j: int) -> Map<Seq<u8>, Stats> {
        Map::new(
            |k: Seq<u8>| exists|i: int| 0 <= i < j && #[trigger] self.keys@[i]@ == k,
            |k: Seq<u8>| self@[k],
        )
    }

    /// Takes in every key of `other`: keys only in one table keep their
    /// statistics, keys in both get the two combined.
    pub fn merge(&mut self, other: AggregationTable)
        requires
            old(self).wf(),
            other.wf(),
            old(self).seen() + other.seen() <= u64::MAX,
        ensures
            final(self).wf(),
            final(self)@ == merged(old(self)@, other@),
            final(self).seen() == old(self).seen() + other.seen(),
    {
        proof {
            self.lemma_wf();
            other.lemma_wf();
        }
        let ghost a = self@;
        self.add_seen(other.seen);
        proof {
            assert(other.first_keys(0) =~= Map::<Seq<u8>, Stats>::empty());
            lemma_merge_empty(a);
        }
        let mut j: usize = 0;
        while j < other.keys.len()
            invariant
                self.wf(),
                other.wf(),
                self.seen() == old(self).seen() + other.seen(),
                a == old(self)@,
                j <= other.keys@.len(),
                self@ == merged(a, other.first_keys(j as int)),
                forall|k: Seq<u8>| #[trigger] a.contains_key(k) ==> a[k].count <= old(self).seen(),
                forall|k: Seq<u8>| #[trigger]
                    other@.contains_key(k) ==> valid(other@[k]) && other@[k].count <= other.seen(),
            decreases other.keys@.len() - j,
        {
            let key = other.keys[j].clone();
            let agg = other.aggs[j];
            let ghost kj = key@;
            proof {
                let p = other.first_keys(j as int);
                assert(!p.contains_key(kj)) by {
                    if p.contains_key(kj) {
                        let i = choose|i: int| 0 <= i < j && #[trigger] other.keys@[i]@ == kj;
                        assert(other.keys@[i]@ != other.keys@[j as int]@);
                    }
                }
                assert(other.first_keys(j + 1) =~= p.insert(kj, agg@)) by {
                    assert forall|k: Seq<u8>|
                        #[trigger] other.first_keys(j + 1).contains_key(k) implies p.insert(
                        kj,
                        agg@,
                    ).contains_key(k) by {
                        let i = choose|i: int| 0 <= i < j + 1 && #[trigger] other.keys@[i]@ == k;
                        if i < j {
                            assert(p.contains_key(k));
                        }
                    }
                    assert forall|k: Seq<u8>|
                        #[trigger] p.insert(kj, agg@).contains_key(k) implies other.first_keys(
                        j + 1,
                    ).contains_key(k) by {
                        if k == kj {
                            assert(other.keys@[j as int]@ == k);
                        } else {
                            let i = choose|i: int| 0 <= i < j && #[trigger] other.keys@[i]@ == k;
                            assert(other.keys@[i]@ == k);
                        }
                    }
                }
                lemma_merged_insert_new(a, p, kj, agg@);
                assert(other@.contains_key(kj));
            }
            self.absorb_aggregate(key, agg);
            j = j + 1;
        }
        proof {
            assert(other.first_keys(j as int) =~= other@) by {
                assert forall|k: Seq<u8>| #[trigger] other@.contains_key(k) implies other.first_keys(
                    j as int,
                ).contains_key(k) by {
                    let i = choose|i: int| 0 <= i < other.keys@.len() && #[trigger] other.keys@[i]@ == k;
                    assert(other.keys@[i]@ == k);
                }
            }
        }
    }
}

} // verus!
