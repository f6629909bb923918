use ben::Lbl::{Alc, Arr, Len};
use ben::{compare, overhead_cpu_cyc, net_cyc, ratio, sta_vals, Ben, BenErr, Cmp, Sel, Sta, StaVal, Tme};

#[test]
fn median_even_length_is_upper_middle() {
    assert_eq!(Sta::Mdn.reduce(&vec![4, 1, 3, 2]), 3);
}

#[test]
fn median_odd_length() {
    assert_eq!(Sta::Mdn.reduce(&vec![9, 1, 5]), 5);
}

#[test]
fn statistics_are_ordered() {
    let v: Vec<u64> = vec![17, 3, 99, 42, 3, 58, 7];
    let min = Sta::Min.reduce(&v);
    let mdn = Sta::Mdn.reduce(&v);
    let max = Sta::Max.reduce(&v);
    let avg = Sta::Avg.reduce(&v);
    assert_eq!((min, mdn, max, avg), (3, 17, 99, 32));
    assert!(min <= mdn && mdn <= max);
    assert!(min <= avg && avg <= max);
}

#[test]
fn average_truncates() {
    assert_eq!(Sta::Avg.reduce(&vec![1, 2]), 1);
    assert_eq!(Sta::Avg.reduce(&vec![u64::MAX, u64::MAX]), u64::MAX);
    assert_eq!(Sta::Avg.reduce(&vec![5, 5, 5]), 5);
}

#[test]
fn statistic_default_and_codes() {
    assert_eq!(Sta::default(), Sta::Mdn);
    assert_ne!(Sta::Mdn.code(), Sta::Max.code());
}

#[test]
fn ratio_is_symmetric() {
    assert_eq!(ratio(3, 7), ratio(7, 3));
    assert_eq!(ratio(3, 7), 23);
    assert_eq!(ratio(100, 100), 10);
}

#[test]
fn ratio_floors_denominator() {
    assert_eq!(ratio(0, 5), 50);
    assert_eq!(ratio(5, 0), 50);
    assert_eq!(ratio(0, 0), 0);
}

#[test]
fn ratio_rounds_half_up() {
    assert_eq!(ratio(4, 5), 13);
    assert_eq!(ratio(16, 20), 13);
}

#[test]
fn sta_vals_orders_by_label() {
    let bens = vec![Ben::new(Len(32), vec![7, 9, 8]), Ben::new(Len(16), vec![1, 3, 2])];
    let vals = sta_vals(Sta::Max, &bens);
    assert_eq!(vals.len(), 2);
    assert_eq!((vals[0].lbl, vals[0].val), (Len(16), 3));
    assert_eq!((vals[1].lbl, vals[1].val), (Len(32), 9));
}

fn sel(lbls: &[ben::Lbl], vals: &[(ben::Lbl, u64)]) -> Sel<ben::Lbl> {
    Sel::new(lbls, Sta::Mdn, vals.iter().map(|&(l, v)| StaVal::new(l, v)).collect())
}

#[test]
fn compare_builds_rows() {
    let a = sel(&[Alc], &[(Len(16), 16), (Len(32), 40)]);
    let b = sel(&[Arr], &[(Len(16), 20), (Len(32), 10)]);
    let c = compare(&a, &b).unwrap();
    assert_eq!(c.hdr_lbls, vec![Len(16), Len(32)]);
    assert_eq!(c.a_vals, vec![16, 40]);
    assert_eq!(c.b_vals, vec![20, 10]);
    assert_eq!(c.ratios, vec![13, 40]);
    let rows = c.rows().unwrap();
    assert_eq!(rows[0], vec!["len", "16", "32"]);
    assert_eq!(rows[1], vec!["alc", "16", "40"]);
    assert_eq!(rows[2], vec!["arr", "20", "10"]);
    assert_eq!(rows[3], vec!["ratio (max / min)", "1.3", "4"]);
}

#[test]
fn compare_uneven_lengths() {
    let a = sel(&[Alc], &[(Len(16), 16)]);
    let b = sel(&[Arr], &[(Len(16), 20), (Len(32), 10)]);
    assert!(matches!(compare(&a, &b), Err(BenErr::UnevenLengths(1, 2))));
}

#[test]
fn compare_unequal_labels() {
    let a = sel(&[Alc], &[(Len(16), 16), (Len(32), 1)]);
    let b = sel(&[Arr], &[(Len(16), 20), (Len(64), 10)]);
    assert!(matches!(compare(&a, &b), Err(BenErr::UnequalLabels(1, Len(32), Len(64)))));
}

#[test]
fn rows_need_payloads() {
    let c = Cmp::new(vec![Alc], vec![Alc], vec![Arr], vec![1], vec![2], vec![20]);
    assert!(c.rows().is_err());
}

#[test]
fn timer_and_overhead() {
    let mut t = Tme(0);
    t.start(100);
    t.stop(130);
    assert_eq!(t.0, 30);
    t.start(100);
    t.stop(90);
    assert_eq!(t.0, 0);
    assert_eq!(overhead_cpu_cyc(&vec![30, 25, 27, 26]), 25);
    assert_eq!(net_cyc(10, 25), 0);
    assert_eq!(net_cyc(100, 25), 75);
}
