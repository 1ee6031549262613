use std::time::Instant;

use jemalloc_pprof::capi::{
    check_mallctl, dump_jemalloc_pprof, out_buffer, DumpError, Outcome, JP_FAILURE, JP_SUCCESS,
};
use jemalloc_pprof::control::{
    activate_jemalloc_profiling, deactivate_jemalloc_profiling, handle_get_heap,
    require_profiling_activated, JemallocProfCtl, Plan, ProfStartTime, Reply, Request, Step,
};

/// An error of jemalloc: no value has this name.
fn refusal() -> tikv_jemalloc_ctl::Error {
    let mut mib = [0; 4];
    tikv_jemalloc_ctl::raw::name_to_mib(b"no.such.name\0", &mut mib).unwrap_err()
}

fn activated() -> JemallocProfCtl {
    JemallocProfCtl::get(true, true).unwrap()
}

fn deactivated() -> JemallocProfCtl {
    JemallocProfCtl::get(true, false).unwrap()
}

#[test]
fn there_is_no_handle_without_profiling() {
    assert!(JemallocProfCtl::get(false, false).is_none());
    assert!(JemallocProfCtl::get(false, true).is_none());
}

#[test]
fn profiling_may_be_active_from_the_start() {
    assert!(matches!(activated().get_md().start_time, Some(ProfStartTime::TimeImmemorial)));
    assert!(activated().activated());
    assert!(deactivated().get_md().start_time.is_none());
    assert!(!deactivated().activated());
}

#[test]
fn values_have_names() {
    assert_eq!(Request::ReadEnabled.name(), "opt.prof\0");
    assert_eq!(Request::ReadActive.name(), "opt.prof_active\0");
    assert_eq!(Request::SetActive(true).name(), "prof.active\0");
    assert_eq!(Request::SetActive(false).name(), "prof.active\0");
    assert_eq!(Request::ReadLgSample.name(), "prof.lg_sample\0");
    assert_eq!(Request::Reset(19).name(), "prof.reset\0");
    assert_eq!(Request::Dump.name(), "prof.dump\0");
}

#[test]
fn activation_sets_the_start_time() {
    let mut ctl = deactivated();
    let now = Instant::now();
    assert_eq!(ctl.activate(), Request::SetActive(true));
    let step = ctl.proceed(Request::SetActive(true), Reply::Written, now);
    assert!(matches!(step, Step::Done(Ok(()))));
    assert!(ctl.activated());
    assert!(matches!(ctl.get_md().start_time, Some(ProfStartTime::Instant(time)) if time == now));
}

#[test]
fn activation_keeps_a_start_time() {
    let mut ctl = activated();
    let step = ctl.proceed(Request::SetActive(true), Reply::Written, Instant::now());
    assert!(matches!(step, Step::Done(Ok(()))));
    assert!(matches!(ctl.get_md().start_time, Some(ProfStartTime::TimeImmemorial)));
}

#[test]
fn deactivation_takes_three_steps() {
    let mut ctl = activated();
    let now = Instant::now();
    assert_eq!(ctl.deactivate(), Request::SetActive(false));
    let step = ctl.proceed(Request::SetActive(false), Reply::Written, now);
    assert!(matches!(step, Step::Access(Request::ReadLgSample)));
    assert!(ctl.activated());
    let step = ctl.proceed(Request::ReadLgSample, Reply::Number(19), now);
    assert!(matches!(step, Step::Access(Request::Reset(19))));
    assert!(ctl.activated());
    let step = ctl.proceed(Request::Reset(19), Reply::Written, now);
    assert!(matches!(step, Step::Done(Ok(()))));
    assert!(!ctl.activated());
}

#[test]
fn refused_accesses_change_nothing() {
    let now = Instant::now();
    for request in [Request::SetActive(true), Request::SetActive(false), Request::Reset(1)] {
        let mut ctl = activated();
        let step = ctl.proceed(request, Reply::Failed(refusal()), now);
        assert!(matches!(step, Step::Done(Err(error)) if error == refusal()));
        assert!(ctl.activated());
        let mut ctl = deactivated();
        let step = ctl.proceed(request, Reply::Failed(refusal()), now);
        assert!(matches!(step, Step::Done(Err(_))));
        assert!(!ctl.activated());
    }
}

#[test]
fn profiling_is_only_activated_where_it_is_not() {
    assert_eq!(activate_jemalloc_profiling(None), Plan::Disabled);
    assert_eq!(activate_jemalloc_profiling(Some(&activated())), Plan::Nothing);
    assert_eq!(
        activate_jemalloc_profiling(Some(&deactivated())),
        Plan::Access(Request::SetActive(true))
    );
}

#[test]
fn profiling_is_only_deactivated_where_it_is_active() {
    assert_eq!(deactivate_jemalloc_profiling(None), Plan::Disabled);
    assert_eq!(deactivate_jemalloc_profiling(Some(&deactivated())), Plan::Nothing);
    assert_eq!(
        deactivate_jemalloc_profiling(Some(&activated())),
        Plan::Access(Request::SetActive(false))
    );
}

#[test]
fn requests_are_refused_without_profiling() {
    assert_eq!(require_profiling_activated(&activated()), Ok(()));
    assert_eq!(
        require_profiling_activated(&deactivated()),
        Err((403, "heap profiling not activated".to_string()))
    );
}

#[test]
fn requests_are_answered() {
    assert_eq!(handle_get_heap(Ok(vec![1, 2])), Ok(vec![1, 2]));
    assert_eq!(handle_get_heap(Err("disk full".to_string())), Err((500, "disk full".to_string())));
}

#[test]
fn callers_from_c_are_told() {
    assert_eq!(JP_SUCCESS, 0);
    assert_eq!(JP_FAILURE, -1);
    assert_eq!(dump_jemalloc_pprof(&Ok(vec![])), Outcome { code: 0, errno: None });
    assert_eq!(
        dump_jemalloc_pprof(&Err(DumpError::Io(Some(28)))),
        Outcome { code: -1, errno: Some(28) }
    );
    assert_eq!(
        dump_jemalloc_pprof(&Err(DumpError::Io(None))),
        Outcome { code: -1, errno: None }
    );
    assert_eq!(
        dump_jemalloc_pprof(&Err(DumpError::Mallctl(2))),
        Outcome { code: -1, errno: Some(2) }
    );
    assert_eq!(
        dump_jemalloc_pprof(&Err(DumpError::Parse)),
        Outcome { code: -1, errno: None }
    );
}

#[test]
fn callers_from_c_get_no_empty_buffer() {
    assert_eq!(out_buffer(vec![]), (None, 0));
    assert_eq!(out_buffer(vec![7, 8]), (Some(vec![7, 8]), 2));
}

#[test]
fn mallctl_tells_by_its_result() {
    assert_eq!(check_mallctl(0), Ok(()));
    assert_eq!(check_mallctl(14), Err(DumpError::Mallctl(14)));
}
