//! Micro-benchmark harness core: label sets and their identities, queries of
//! selections and comparisons, planning of timed runs, reduction of raw cycle
//! samples to statistics, and pairwise comparison of the results.
pub mod ident;
pub mod label;
pub mod lbl;
pub mod query;
pub mod results;
pub mod run;
pub mod stats;
pub mod study;
pub mod text;
pub mod timer;

pub use crate::label::{clone_except, find, mrg_unq_srt, unq_srt, EnumStructVal, Label, NoPayload};
pub use crate::lbl::Lbl;
pub use crate::query::{CmpBld, QryBld, SelBld};
pub use crate::results::{compare, ratio, sta_vals, Ben, BenErr, Cmp, Reg, Sel, StaVal};
pub use crate::run::{compare_all, group_results, partition, select_all, split, summarize, Qry};
pub use crate::stats::Sta;
pub use crate::study::{check_entries, BenBld, Grp, Plan, RegBld, Stdy};
pub use crate::text::{decimal, fmt_count, fmt_num, fmt_tenths, join};
pub use crate::timer::{net_cyc, overhead_cpu_cyc, Tme};
