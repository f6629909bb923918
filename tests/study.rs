use ben::Lbl::{Alc, Arr, Len, Vct};
use ben::{check_entries, group_results, partition, split, summarize};
use ben::{Ben, BenBld, BenErr, Grp, Lbl, QryBld, RegBld, Sta, Stdy};

type Thunk = Box<dyn Fn() -> u64>;
type Pop = fn(&mut RegBld<Lbl, Thunk>);

fn pop_a(r: &mut RegBld<Lbl, Thunk>) {
    r.ins(Len(16), Box::new(|| 16));
    r.ins(Len(32), Box::new(|| 32));
}

fn pop_b(r: &mut RegBld<Lbl, Thunk>) {
    r.ins(Len(32), Box::new(|| 64));
    r.ins(Len(16), Box::new(|| 20));
}

fn pop_none(_r: &mut RegBld<Lbl, Thunk>) {}

fn pop_mixed(r: &mut RegBld<Lbl, Thunk>) {
    r.ins(Len(16), Box::new(|| 1));
    r.ins(Vct, Box::new(|| 2));
}

fn study() -> Stdy<Lbl, Thunk, Pop> {
    let mut st: Stdy<Lbl, Thunk, Pop> = Stdy::new();
    st.reg_bld(&[Alc], pop_a).unwrap();
    st.reg_bld(&[Arr], pop_b).unwrap();
    st
}

/// Populates the registrations the query uses, then plans the run.
fn resolve(st: &mut Stdy<Lbl, Thunk, Pop>, qry: &QryBld<Lbl>, itr: u16) -> Result<ben::Plan<Lbl, Thunk>, BenErr<Lbl>> {
    st.populate(qry);
    st.plan(qry, itr)
}

/// Runs every task `itr` times, as the workers would.
fn execute(tasks: Vec<BenBld<Lbl, Thunk>>, itr: u16) -> Vec<(u64, Ben<Lbl>)> {
    let mut out = Vec::new();
    for t in tasks {
        let vals: Vec<u64> = (0..itr).map(|_| (t.f)()).collect();
        out.push((t.reg_id, Ben::new(t.lbl, vals)));
    }
    out
}

fn end_to_end() -> ben::Qry<Lbl> {
    let mut st = study();
    run_query(&mut st)
}

fn run_query(st: &mut Stdy<Lbl, Thunk, Pop>) -> ben::Qry<Lbl> {
    let mut qry = QryBld::new();
    let a = qry.sel(&[Alc]);
    let b = qry.sel(&[Arr]);
    qry.cmp(a, b);
    let plan = resolve(st, &qry, 64).unwrap();
    assert_eq!(plan.tasks.len(), 4);
    let grps = plan.grps;
    let itr = plan.itr;
    let mut results = Vec::new();
    for chunk in split(plan.tasks, 3) {
        results.extend(execute(chunk, itr));
    }
    results.reverse();
    summarize(&qry, &grps, itr, results).unwrap()
}

#[test]
fn end_to_end_comparison() {
    let q = end_to_end();
    assert_eq!(q.sels.len(), 2);
    assert_eq!(q.cmps.len(), 1);
    let c = &q.cmps[0];
    assert_eq!(c.hdr_lbls, vec![Len(16), Len(32)]);
    assert_eq!(c.a_lbls, vec![Alc]);
    assert_eq!(c.b_lbls, vec![Arr]);
    assert_eq!(c.a_vals, vec![16, 32]);
    assert_eq!(c.b_vals, vec![20, 64]);
    assert_eq!(c.ratios, vec![13, 20]);
    let again = end_to_end();
    assert_eq!(again.cmps[0].hdr_lbls, c.hdr_lbls);
    assert_eq!(again.cmps[0].a_vals.len(), c.a_vals.len());
    assert_eq!(again.cmps[0].b_vals.len(), c.b_vals.len());
}

#[test]
fn selections_deduplicate() {
    let mut qry: QryBld<Lbl> = QryBld::new();
    let a = qry.sel(&[Alc, Arr]);
    let b = qry.sel(&[Arr, Alc, Arr]);
    assert_eq!(a, b);
    assert_eq!(qry.sel_blds.len(), 1);
    let c = qry.sel_sta(&[Alc, Arr], Sta::Max);
    assert_ne!(a, c);
    assert_eq!(qry.sel_blds.len(), 2);
    assert_eq!(qry.sel_blds[0].lbls, vec![Alc, Arr]);
    assert_eq!(qry.sel_blds[0].id(), a);
    qry.cmp(a, c);
    qry.cmp(a, c);
    assert_eq!(qry.cmp_blds.len(), 2);
}

#[test]
fn missing_registration_is_named() {
    let mut st = study();
    let mut qry = QryBld::new();
    qry.sel(&[Alc]);
    qry.sel(&[Vct, Alc]);
    match resolve(&mut st, &qry, 8) {
        Err(BenErr::MissingRegistration(v)) => assert_eq!(v, vec![Alc, Vct]),
        _ => panic!("expected a missing registration"),
    }
}

#[test]
fn empty_labels_are_refused() {
    let mut st: Stdy<Lbl, Thunk, Pop> = Stdy::new();
    assert!(matches!(st.reg_bld(&[], pop_a), Err(BenErr::EmptyLabels)));
}

#[test]
fn first_registration_wins() {
    let mut st: Stdy<Lbl, Thunk, Pop> = Stdy::new();
    st.reg_bld(&[Alc, Arr], pop_a).unwrap();
    st.reg_bld(&[Arr, Alc], pop_none).unwrap();
    let mut qry = QryBld::new();
    qry.sel(&[Alc, Arr]);
    let plan = resolve(&mut st, &qry, 4).unwrap();
    assert_eq!(plan.tasks.len(), 2);
}

#[test]
fn zero_iterations_are_refused() {
    let mut st = study();
    let mut qry = QryBld::new();
    qry.sel(&[Alc]);
    assert!(matches!(resolve(&mut st, &qry, 0), Err(BenErr::ZeroIterations)));
}

#[test]
fn empty_benchmarks_fail() {
    let mut st: Stdy<Lbl, Thunk, Pop> = Stdy::new();
    st.reg_bld(&[Alc], pop_none).unwrap();
    let mut qry = QryBld::new();
    qry.sel(&[Alc]);
    match resolve(&mut st, &qry, 4) {
        Err(BenErr::EmptyBenchmarks(v)) => assert_eq!(v, vec![Alc]),
        _ => panic!("expected empty benchmarks"),
    }
}

#[test]
fn inconsistent_labels_fail() {
    let mut st: Stdy<Lbl, Thunk, Pop> = Stdy::new();
    st.reg_bld(&[Alc], pop_mixed).unwrap();
    let mut qry = QryBld::new();
    qry.sel(&[Alc]);
    match resolve(&mut st, &qry, 4) {
        Err(BenErr::InconsistentLabels(v)) => assert_eq!(v, vec![Alc]),
        _ => panic!("expected inconsistent labels"),
    }
}

#[test]
fn shared_registration_runs_once() {
    let mut st = study();
    let mut qry = QryBld::new();
    let a = qry.sel_sta(&[Alc], Sta::Min);
    let b = qry.sel_sta(&[Alc], Sta::Max);
    qry.cmp(a, b);
    let plan = resolve(&mut st, &qry, 3).unwrap();
    assert_eq!(plan.tasks.len(), 2);
    assert_eq!(plan.grps.len(), 1);
    let results = execute(plan.tasks, plan.itr);
    let q = summarize(&qry, &plan.grps, plan.itr, results).unwrap();
    assert_eq!(q.cmps[0].ratios, vec![10, 10]);
}

#[test]
fn missing_selection_fails() {
    let mut st = study();
    let mut qry = QryBld::new();
    let a = qry.sel(&[Alc]);
    qry.cmp(a, 12345);
    let plan = resolve(&mut st, &qry, 2).unwrap();
    let results = execute(plan.tasks, plan.itr);
    assert!(matches!(summarize(&qry, &plan.grps, plan.itr, results), Err(BenErr::MissingSelection(12345))));
}

#[test]
fn incomplete_results_fail() {
    let mut st = study();
    let mut qry = QryBld::new();
    qry.sel(&[Alc]);
    let plan = resolve(&mut st, &qry, 2).unwrap();
    let mut results = execute(plan.tasks, plan.itr);
    results.pop();
    match summarize(&qry, &plan.grps, plan.itr, results) {
        Err(BenErr::IncompleteResults(v)) => assert_eq!(v, vec![Alc]),
        _ => panic!("expected incomplete results"),
    }
}

#[test]
fn group_results_checks_sample_counts() {
    let grps = vec![Grp { reg_id: 7, lbls: vec![Alc], n: 1 }];
    let short = vec![(7u64, Ben::new(Len(16), vec![1]))];
    assert!(matches!(group_results(&grps, 2, short), Err(BenErr::IncompleteResults(_))));
    let good = vec![(9u64, Ben::new(Len(8), vec![5, 5])), (7u64, Ben::new(Len(16), vec![1, 2]))];
    let regs = group_results(&grps, 2, good).unwrap();
    assert_eq!(regs.len(), 1);
    assert_eq!(regs[0].bens.len(), 1);
    assert_eq!(regs[0].bens[0].lbl, Len(16));
}

#[test]
fn check_entries_cases() {
    let none: Vec<BenBld<Lbl, u8>> = Vec::new();
    assert!(matches!(check_entries(&vec![Alc], &none), Err(BenErr::EmptyBenchmarks(_))));
    let same = vec![BenBld::new(1, Len(1), 0u8), BenBld::new(1, Len(2), 0u8)];
    assert!(check_entries(&vec![Alc], &same).is_ok());
    let mixed = vec![BenBld::new(1, Len(1), 0u8), BenBld::new(1, Arr, 0u8)];
    assert!(matches!(check_entries(&vec![Alc], &mixed), Err(BenErr::InconsistentLabels(_))));
}

#[test]
fn partition_is_contiguous_and_balanced() {
    assert_eq!(partition(4, 10), vec![(0, 3), (3, 6), (6, 8), (8, 10)]);
    assert_eq!(partition(3, 2), vec![(0, 1), (1, 2), (2, 2)]);
    assert_eq!(partition(1, 0), vec![(0, 0)]);
}

#[test]
fn split_keeps_order() {
    let parts = split(vec![1, 2, 3, 4, 5], 2);
    assert_eq!(parts, vec![vec![1, 2, 3], vec![4, 5]]);
}

#[test]
fn select_all_needs_planned_registrations() {
    let mut qry = QryBld::new();
    qry.sel(&[Alc]);
    let grps = vec![Grp { reg_id: 7, lbls: vec![Arr], n: 0 }];
    match ben::select_all(&qry, &grps, 1, Vec::new()) {
        Err(BenErr::MissingRegistration(v)) => assert_eq!(v, vec![Alc]),
        _ => panic!("expected a missing registration"),
    }
}

#[test]
fn compare_all_takes_first_results() {
    let a = ben::Sel::new(&[Alc], Sta::Mdn, vec![ben::StaVal::new(Len(16), 10)]);
    let b = ben::Sel::new(&[Arr], Sta::Mdn, vec![ben::StaVal::new(Len(16), 30)]);
    let sels = vec![(1u64, a), (2u64, b)];
    let reqs = vec![ben::CmpBld::new(1, 2), ben::CmpBld::new(2, 2)];
    let cmps = ben::compare_all(&reqs, &sels).unwrap();
    assert_eq!(cmps.len(), 2);
    assert_eq!(cmps[0].ratios, vec![30]);
    assert_eq!(cmps[1].ratios, vec![10]);
    let bad = vec![ben::CmpBld::new(1, 3)];
    assert!(matches!(ben::compare_all(&bad, &sels), Err(BenErr::MissingSelection(3))));
}

#[test]
fn one_study_runs_twice() {
    let mut st = study();
    let first = run_query(&mut st);
    let second = run_query(&mut st);
    for q in [&first, &second] {
        assert_eq!(q.cmps.len(), 1);
        assert_eq!(q.cmps[0].hdr_lbls, vec![Len(16), Len(32)]);
        assert_eq!(q.cmps[0].a_lbls, vec![Alc]);
        assert_eq!(q.cmps[0].b_lbls, vec![Arr]);
        assert_eq!(q.cmps[0].ratios.len(), 2);
    }
    assert_eq!(first.cmps[0].a_vals, second.cmps[0].a_vals);
}

#[test]
fn missing_registration_comes_before_zero_iterations() {
    let mut st = study();
    let mut qry = QryBld::new();
    qry.sel(&[Vct]);
    match resolve(&mut st, &qry, 0) {
        Err(BenErr::MissingRegistration(v)) => assert_eq!(v, vec![Vct]),
        _ => panic!("expected a missing registration"),
    }
}

#[test]
fn failed_plan_keeps_entries() {
    let mut st: Stdy<Lbl, Thunk, Pop> = Stdy::new();
    st.reg_bld(&[Alc], pop_a).unwrap();
    let mut qry = QryBld::new();
    qry.sel(&[Alc]);
    st.populate(&qry);
    assert!(matches!(st.plan(&qry, 0), Err(BenErr::ZeroIterations)));
    let plan = st.plan(&qry, 3).unwrap();
    assert_eq!(plan.tasks.len(), 2);
    assert_eq!(plan.grps[0].n, 2);
    assert!(matches!(st.plan(&qry, 3), Err(BenErr::EmptyBenchmarks(_))));
}

#[test]
fn handle_and_absorb() {
    let mut r: RegBld<Lbl, u8> = RegBld::new(&[Arr, Alc]);
    let mut h = r.handle();
    assert_eq!(h.id, r.id);
    assert_eq!(h.lbls, vec![Alc, Arr]);
    assert!(h.ben_blds.is_empty());
    h.ins(Len(4), 1);
    h.id = 99;
    h.ins(Len(8), 2);
    r.absorb(h);
    assert_eq!(r.ben_blds.len(), 2);
    assert!(r.ben_blds.iter().all(|b| b.reg_id == r.id));
    assert_eq!(r.ben_blds[1].lbl, Len(8));
    r.ins_ben_blds(|x: &mut RegBld<Lbl, u8>| {
        x.ins(Len(16), 3);
    });
    assert_eq!(r.ben_blds.len(), 3);
    assert_eq!(r.ben_blds[2].f, 3);
}
