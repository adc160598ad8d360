//! Text of the result: one line per name, `<name> <min>/<mean>/<max>`, each
//! value in units with one fractional digit.
use vstd::prelude::*;
use crate::record::{NameKey, DOT, MINUS};
use crate::table::{lemma_valid_bounds, valid, Aggregate, AggregationTable, Stats};

verus! {

pub const SLASH: u8 = 47;

pub const SPACE: u8 = 32;

pub const NEWLINE: u8 = 10;

/// Division that rounds toward zero.
pub open spec fn trunc_div(a: int, b: int) -> int {
    if a >= 0 {
        a / b
    } else {
        -((-a) / b)
    }
}

/// The mean of the statistics in tenths, rounded toward zero.
pub open spec fn mean_of(s: Stats) -> int {
    trunc_div(s.sum, s.count)
}

pub open spec fn ascii_digit(d: int) -> u8 {
    (48 + d) as u8
}

/// A value of at most three digits in tenths: an optional `-`, two integer
/// digits, `.`, one fractional digit.
pub open spec fn tenths_text(v: int) -> Seq<u8> {
    let a = if v < 0 {
        -v
    } else {
        v
    };
    (if v < 0 {
        seq![MINUS]
    } else {
        Seq::<u8>::empty()
    }) + seq![ascii_digit(a / 100), ascii_digit((a % 100) / 10), DOT, ascii_digit(a % 10)]
}

/// `<min>/<mean>/<max>`.
pub open spec fn stats_text(s: Stats) -> Seq<u8> {
    tenths_text(s.min) + seq![SLASH] + tenths_text(mean_of(s)) + seq![SLASH] + tenths_text(s.max)
}

/// A key without its zero padding.
pub open spec fn trimmed(k: Seq<u8>) -> Seq<u8>
    decreases k.len(),
{
    if k.len() > 0 && k.last() == 0 {
        trimmed(k.drop_last())
    } else {
        k
    }
}

/// The line of one key.
pub open spec fn line_text(k: Seq<u8>, s: Stats) -> Seq<u8> {
    trimmed(k) + seq![SPACE] + stats_text(s) + seq![NEWLINE]
}

/// The lines of the keys in order.
pub open spec fn report_text(keys: Seq<Seq<u8>>, m: Map<Seq<u8>, Stats>) -> Seq<u8>
    decreases keys.len(),
{
    if keys.len() == 0 {
        Seq::empty()
    } else {
        report_text(keys.drop_last(), m) + line_text(keys.last(), m[keys.last()])
    }
}

/// The mean in tenths, rounded toward zero.
pub fn mean(agg: &Aggregate) -> (r: i16)
    requires
        valid(agg@),
    ensures
        r as int == mean_of(agg@),
        -999 <= r <= 999,
{
    proof {
        lemma_valid_bounds(agg@);
    }
    let sum = agg.sum();
    let count = agg.count() as u128;
    if sum >= 0 {
        let q = (sum as u128) / count;
        proof {
            let s = sum as int;
            let c = count as int;
            assert(s / c <= 999) by (nonlinear_arith)
                requires
                    0 <= s <= 999 * c,
                    c >= 1,
            ;
        }
        q as i16
    } else {
        let q = ((-sum) as u128) / count;
        proof {
            let s = -(sum as int);
            let c = count as int;
            assert(s / c <= 999) by (nonlinear_arith)
                requires
                    0 <= s <= 999 * c,
                    c >= 1,
            ;
        }
        -(q as i16)
    }
}

fn push_tenths(out: &mut Vec<u8>, v: i16)
    requires
        -999 <= v <= 999,
    ensures
        final(out)@ == old(out)@ + tenths_text(v as int),
{
    let a: i16 = if v < 0 {
        out.push(MINUS);
        -v
    } else {
        v
    };
    out.push((48 + a / 100) as u8);
    out.push((48 + (a % 100) / 10) as u8);
    out.push(DOT);
    out.push((48 + a % 10) as u8);
    proof {
        assert(final(out)@ =~= old(out)@ + tenths_text(v as int));
    }
}

/// `<min>/<mean>/<max>` of one aggregate.
pub fn stringify_result(agg: &Aggregate) -> (r: Vec<u8>)
    requires
        valid(agg@),
    ensures
        r@ == stats_text(agg@),
{
    let mut out: Vec<u8> = Vec::with_capacity(20);
    push_stats(&mut out, agg);
    proof {
        assert(out@ =~= stats_text(agg@));
    }
    out
}

fn push_stats(out: &mut Vec<u8>, agg: &Aggregate)
    requires
        valid(agg@),
    ensures
        final(out)@ == old(out)@ + stats_text(agg@),
{
    let ghost start = out@;
    push_tenths(out, agg.min());
    out.push(SLASH);
    push_tenths(out, mean(agg));
    out.push(SLASH);
    push_tenths(out, agg.max());
    proof {
        assert(out@ =~= start + stats_text(agg@));
    }
}

/// Length of `key` without its trailing zero bytes.
fn trimmed_len(key: &[u8]) -> (r: usize)
    ensures
        r <= key@.len(),
        trimmed(key@) == key@.subrange(0, r as int),
{
    let mut i: usize = key.len();
    proof {
        assert(key@.subrange(0, i as int) =~= key@);
    }
    while i > 0 && key[i - 1] == 0
        invariant
            i <= key@.len(),
            trimmed(key@) == trimmed(key@.subrange(0, i as int)),
        decreases i,
    {
        proof {
            assert(key@.subrange(0, i as int).drop_last() =~= key@.subrange(0, i - 1));
        }
        i = i - 1;
    }
    i
}

/// `<name> <min>/<mean>/<max>` and a newline, the name without its padding.
pub fn report_line(key: &NameKey, agg: &Aggregate) -> (r: Vec<u8>)
    requires
        valid(agg@),
    ensures
        r@ == line_text(key@, agg@),
{
    let mut out: Vec<u8> = Vec::new();
    push_line(&mut out, key.as_bytes(), agg);
    proof {
        assert(out@ =~= line_text(key@, agg@));
    }
    out
}

fn push_line(out: &mut Vec<u8>, key: &[u8], agg: &Aggregate)
    requires
        valid(agg@),
    ensures
        final(out)@ == old(out)@ + line_text(key@, agg@),
{
    let ghost start = out@;
    let n = trimmed_len(key);
    out.extend_from_slice(&key[0..n]);
    out.push(SPACE);
    push_stats(out, agg);
    out.push(NEWLINE);
    proof {
        assert(out@ =~= start + line_text(key@, agg@));
    }
}

/// One line per key of the table, in the table's order.
pub fn render_report(table: &AggregationTable) -> (r: Vec<u8>)
    requires
        table.wf(),
    ensures
        r@ == report_text(table.key_seq(), table@),
{
    let mut out: Vec<u8> = Vec::new();
    let n = table.len();
    let mut i: usize = 0;
    proof {
        table.lemma_wf();
    }
    while i < n
        invariant
            table.wf(),
            n == table.key_seq().len(),
            i <= n,
            out@ == report_text(table.key_seq().take(i as int), table@),
            forall|k: Seq<u8>| #[trigger] table@.contains_key(k) ==> valid(table@[k]),
            forall|j: int| 0 <= j < n ==> table@.contains_key(#[trigger] table.key_seq()[j]),
        decreases n - i,
    {
        let key = table.key_at(i);
        let agg = table.aggregate_at(i);
        push_line(&mut out, key.as_bytes(), &agg);
        proof {
            let ks = table.key_seq();
            assert(ks.take(i + 1).drop_last() =~= ks.take(i as int));
            assert(ks.take(i + 1).last() == ks[i as int]);
        }
        i = i + 1;
    }
    proof {
        assert(table.key_seq().take(n as int) =~= table.key_seq());
    }
    out
}

} // verus!
