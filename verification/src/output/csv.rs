//! CSV rendering of benchmark results: a header row and one row per
//! benchmark, durations in raw picoseconds.

use vstd::prelude::*;

use crate::stats::PercentileStats;
use crate::text::{dec_digits, push_char, push_decimal, push_str};

verus! {

/// The CSV header row, without its line break.
pub const CSV_HEADER: &'static str = "name,threads,sample_count,iter_count,min_picos,max_picos,mean_picos,std_dev_picos,p50_picos,p95_picos,p99_picos,p99_9_picos,p99_99_picos";

/// `,` followed by the decimal digits of `n`.
pub open spec fn csv_field(n: nat) -> Seq<char> {
    seq![','] + dec_digits(n)
}

/// The CSV row of one benchmark, with its line break.
pub open spec fn csv_row(name: Seq<char>, threads: u32, st: PercentileStats) -> Seq<char> {
    name + csv_field(threads as nat) + csv_field(st.sample_count as nat) + csv_field(
        st.iter_count as nat,
    ) + csv_field(st.min.picos as nat) + csv_field(st.max.picos as nat) + csv_field(
        st.mean.picos as nat,
    ) + csv_field(st.std_dev.picos as nat) + csv_field(st.percentiles.p50.picos as nat)
        + csv_field(st.percentiles.p95.picos as nat) + csv_field(st.percentiles.p99.picos as nat)
        + csv_field(st.percentiles.p99_9.picos as nat) + csv_field(
        st.percentiles.p99_99.picos as nat,
    ) + seq!['\n']
}

/// The data rows of a sequence of results, in order.
pub open spec fn csv_rows(rows: Seq<(&str, u32, &PercentileStats)>) -> Seq<char>
    decreases rows.len(),
{
    if rows.len() == 0 {
        seq![]
    } else {
        csv_rows(rows.drop_last()) + csv_row(rows.last().0@, rows.last().1, *rows.last().2)
    }
}

/// The whole CSV document of a sequence of results.
pub open spec fn csv_text(rows: Seq<(&str, u32, &PercentileStats)>) -> Seq<char> {
    CSV_HEADER@.push('\n') + csv_rows(rows)
}

/// CSV output renderer.
pub struct CsvRenderer;

/// Appends `,` and the decimal digits of `n`.
fn push_field(out: &mut String, n: u128)
    ensures
        final(out)@ == old(out)@ + csv_field(n as nat),
{
    let ghost start = out@;
    push_char(out, ',');
    push_decimal(out, n);
    assert(out@ =~= start + csv_field(n as nat));
}

/// Appends the CSV row of one benchmark.
fn push_row(out: &mut String, name: &str, threads: u32, st: &PercentileStats)
    ensures
        final(out)@ == old(out)@ + csv_row(name@, threads, *st),
{
    let ghost start = out@;
    push_str(out, name);
    push_field(out, threads as u128);
    push_field(out, st.sample_count as u128);
    push_field(out, st.iter_count as u128);
    push_field(out, st.min.picos);
    push_field(out, st.max.picos);
    push_field(out, st.mean.picos);
    push_field(out, st.std_dev.picos);
    push_field(out, st.percentiles.p50.picos);
    push_field(out, st.percentiles.p95.picos);
    push_field(out, st.percentiles.p99.picos);
    push_field(out, st.percentiles.p99_9.picos);
    push_field(out, st.percentiles.p99_99.picos);
    push_char(out, '\n');
    assert(out@ =~= start + csv_row(name@, threads, *st));
}

impl CsvRenderer {
    /// Renders results, each a name, a thread count and statistics, as a
    /// CSV document: the header row, then one row per result in order.
    pub fn render(results: &[(&str, u32, &PercentileStats)]) -> (r: String)
        ensures
            r@ == csv_text(results@),
    {
        let mut out: String = String::new();
        push_str(&mut out, CSV_HEADER);
        push_char(&mut out, '\n');
        let mut i: usize = 0;
        while i < results.len()
            invariant
                i <= results@.len(),
                out@ == CSV_HEADER@.push('\n') + csv_rows(results@.take(i as int)),
            decreases results@.len() - i,
        {
            let (name, threads, st) = results[i];
            let ghost before = out@;
            push_row(&mut out, name, threads, st);
            proof {
                let t = results@.take(i + 1);
                assert(t.drop_last() =~= results@.take(i as int));
                assert(t.last() == results@[i as int]);
                assert(out@ =~= CSV_HEADER@.push('\n') + csv_rows(t));
            }
            i = i + 1;
        }
        assert(results@.take(results@.len() as int) =~= results@);
        out
    }
}

} // verus!
