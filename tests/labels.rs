use ben::Lbl::{Alc, Arr, Len, Mcr, Vct};
use ben::{clone_except, decimal, find, fmt_count, fmt_num, fmt_tenths, join, mrg_unq_srt, unq_srt};
use ben::{EnumStructVal, Label, Lbl};

#[test]
fn frm_hash() {}

#[test]
fn unq_srt_removes_duplicates_and_sorts() {
    assert_eq!(unq_srt(&[Len(32), Arr, Alc, Arr, Len(16)]), vec![Alc, Arr, Len(16), Len(32)]);
    assert_eq!(unq_srt(&[Alc, Arr, Alc]), vec![Alc, Arr]);
    assert_eq!(unq_srt::<Lbl>(&[]), Vec::<Lbl>::new());
}

#[test]
fn normalization_is_idempotent_and_order_free() {
    let a = unq_srt(&[Vct, Alc, Mcr, Alc]);
    let b = unq_srt(&[Mcr, Vct, Alc, Alc]);
    assert_eq!(a, b);
    assert_eq!(unq_srt(&a), a);
}

#[test]
fn mrg_unq_srt_merges() {
    assert_eq!(mrg_unq_srt(&[Arr, Alc], &[Len(16), Alc]), vec![Alc, Arr, Len(16)]);
}

#[test]
fn clone_except_drops_first_of_kind() {
    assert_eq!(clone_except(&[Alc, Len(16), Arr, Len(32)], Len(0)), vec![Alc, Arr, Len(32)]);
    assert_eq!(clone_except(&[Alc, Arr], Len(0)), vec![Alc, Arr]);
}

#[test]
fn find_returns_first_of_kind() {
    assert_eq!(find(&[Alc, Len(16), Len(32)], Len(0)), Some(Len(16)));
    assert_eq!(find(&[Alc, Arr], Len(0)), None);
}

#[test]
fn label_texts_and_payloads() {
    assert_eq!(Len(16).text(), "len(16)");
    assert_eq!(Len(16).kind_text(), "len");
    assert_eq!(Alc.text(), "alc");
    assert_eq!(Len(7).val(), Ok(7));
    assert!(Alc.val().is_err());
    assert!(Alc.key() < Arr.key());
    assert!(Len(16).key() < Len(32).key());
    assert_eq!(Len(1).kind(), Len(2).kind());
    assert_eq!(Lbl::default(), Alc);
}

#[test]
fn join_labels() {
    assert_eq!(join(&vec![Alc, Vct, Mcr], ','), "alc,vct,mcr");
    assert_eq!(join(&vec![Alc, Len(16)], ','), "alc,len(16)");
    assert_eq!(join(&Vec::<Lbl>::new(), ','), "");
}

#[test]
fn decimal_digits() {
    assert_eq!(decimal(0), "0");
    assert_eq!(decimal(1234), "1234");
    assert_eq!(decimal(u64::MAX as u128), "18446744073709551615");
}

#[test]
fn fmt_num_inserts_commas() {
    assert_eq!(fmt_num("1234567"), "1,234,567");
    assert_eq!(fmt_num("123"), "123");
    assert_eq!(fmt_num("1234"), "1,234");
    assert_eq!(fmt_num("-1234.5"), "-1,234.5");
    assert_eq!(fmt_num("-123"), "-123");
    assert_eq!(fmt_num("12345.678"), "12,345.678");
    assert_eq!(fmt_num(""), "");
}

#[test]
fn fmt_count_and_tenths() {
    assert_eq!(fmt_count(1234567), "1,234,567");
    assert_eq!(fmt_count(0), "0");
    assert_eq!(fmt_tenths(15), "1.5");
    assert_eq!(fmt_tenths(50), "5");
    assert_eq!(fmt_tenths(12345), "1,234.5");
    assert_eq!(fmt_tenths(3), "0.3");
}
