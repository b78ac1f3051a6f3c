use ggca::correlation::CorResult;
use ggca::external_sort::{ChunkReader, ExternalSorter, SortKey, Sortable};

fn record(gene: &str, correlation: f64, p_value: f64) -> CorResult {
    CorResult::new(
        gene.to_string(),
        "m".to_string(),
        None,
        Some(correlation.to_bits()),
        Some(p_value.to_bits()),
        None,
    )
}

fn p_values(v: &[CorResult]) -> Vec<f64> {
    v.iter().map(|r| f64::from_bits(r.p_value.unwrap())).collect()
}

#[test]
/// Sorting by descending p-value, with a tiny in-memory budget forcing many
/// segments.
fn sorts_by_p_value_descending() {
    let items = vec![
        record("a", 0.1, 0.5),
        record("b", 0.2, 0.1),
        record("c", 0.3, 0.9),
        record("d", 0.4, 0.1),
        record("e", 0.5, 0.7),
    ];
    let sorter = ExternalSorter::new(2);
    let sorted = sorter.sort(items, SortKey::PValueDescending);
    assert_eq!(p_values(&sorted), vec![0.9, 0.7, 0.5, 0.1, 0.1]);
    // Ties keep their input order: gene "b" came before gene "d".
    assert_eq!(sorted[3].gene, "b");
    assert_eq!(sorted[4].gene, "d");
}

#[test]
/// The external-sort round trip: any in-memory budget below the item count
/// spills to segments, and the merged output is the same sequence a sort
/// with ample memory gives.
fn budget_does_not_change_the_order() {
    let make = || -> Vec<CorResult> {
        (0..25)
            .map(|i: u32| {
                let p = ((i * 7 + 3) % 11) as f64 / 11.0;
                let c = ((i * 5 + 1) % 13) as f64 / 13.0 - 0.5;
                record(&format!("g{}", i), c, p)
            })
            .collect()
    };
    let ample = ExternalSorter::new(1000).sort(make(), SortKey::PValueDescending);
    for budget in 1..8 {
        let spilled = ExternalSorter::new(budget).sort(make(), SortKey::PValueDescending);
        assert_eq!(spilled.len(), ample.len());
        for (x, y) in spilled.iter().zip(ample.iter()) {
            assert_eq!(x.gene, y.gene);
            assert_eq!(x.p_value, y.p_value);
        }
    }
    let ample_abs = ExternalSorter::new(1000).sort(make(), SortKey::AbsCorrelationDescending);
    let spilled_abs = ExternalSorter::new(3).sort(make(), SortKey::AbsCorrelationDescending);
    for (x, y) in spilled_abs.iter().zip(ample_abs.iter()) {
        assert_eq!(x.gene, y.gene);
    }
    let abs: Vec<f64> = ample_abs
        .iter()
        .map(|r| f64::from_bits(r.correlation.unwrap()).abs())
        .collect();
    for w in abs.windows(2) {
        assert!(w[0] >= w[1]);
    }
}

#[test]
/// A negative statistic ranks by its magnitude under the statistic key.
fn abs_correlation_order_ignores_sign() {
    let a = record("neg", -0.9, 0.5);
    let b = record("pos", 0.3, 0.5);
    // Descending magnitude: -0.9 ranks before 0.3.
    assert!(a.le_by(&b, SortKey::AbsCorrelationDescending));
    assert!(!b.le_by(&a, SortKey::AbsCorrelationDescending));
}

#[test]
/// The chunk reader hands a sorted segment back record by record.
fn chunk_reader_reads_in_order() {
    let items = vec![record("a", 0.1, 0.3), record("b", 0.2, 0.6)];
    let mut reader = ChunkReader::new(items);
    assert_eq!(reader.next().unwrap().gene, "a");
    assert_eq!(reader.next().unwrap().gene, "b");
    assert!(reader.next().is_none());
}
