//! Control over the heap profiler of jemalloc.

use std::time::Instant;

use vstd::prelude::*;

verus! {

/// A point in time, which is only handed on: nothing is claimed of it.
#[verifier::external_type_specification]
#[verifier::external_body]
pub struct ExInstant(std::time::Instant);

/// What `tikv_jemalloc_ctl` returns for an access that jemalloc refused. It is only handed on:
/// nothing is claimed of it.
#[verifier::external_type_specification]
#[verifier::external_body]
pub struct ExCtlError(tikv_jemalloc_ctl::Error);

/// Start times of the profiler.
#[derive(Copy, Clone, Debug)]
pub enum ProfStartTime {
    Instant(Instant),
    TimeImmemorial,
}

/// Metadata about a jemalloc heap profiler.
#[derive(Copy, Clone, Debug)]
pub struct JemallocProfMetadata {
    pub start_time: Option<ProfStartTime>,
}

/// A handle to control jemalloc profiling.
#[derive(Debug)]
pub struct JemallocProfCtl {
    md: JemallocProfMetadata,
}

/// An access to a value of jemalloc.
#[derive(Clone, Copy, Debug, PartialEq, Eq)]
pub enum Request {
    /// Read whether profiling is enabled at all.
    ReadEnabled,
    /// Read whether profiling was active from the start.
    ReadActive,
    /// Make profiling active or inactive.
    SetActive(bool),
    /// Read the base 2 logarithm of the sample rate.
    ReadLgSample,
    /// Forget all samples, and go on with this base 2 logarithm of the sample rate.
    Reset(usize),
    /// Dump a profile into a file.
    Dump,
}

impl Request {
    /// The name of the value, with a zero byte at its end.
    pub fn name(&self) -> (name: &'static str)
        ensures
            name@ == match self {
                Request::ReadEnabled => "opt.prof\0"@,
                Request::ReadActive => "opt.prof_active\0"@,
                Request::SetActive(_) => "prof.active\0"@,
                Request::ReadLgSample => "prof.lg_sample\0"@,
                Request::Reset(_) => "prof.reset\0"@,
                Request::Dump => "prof.dump\0"@,
            },
    {
        match self {
            Request::ReadEnabled => "opt.prof\0",
            Request::ReadActive => "opt.prof_active\0",
            Request::SetActive(_) => "prof.active\0",
            Request::ReadLgSample => "prof.lg_sample\0",
            Request::Reset(_) => "prof.reset\0",
            Request::Dump => "prof.dump\0",
        }
    }
}

/// What became of an access.
#[derive(Clone, Copy)]
pub enum Reply {
    /// The value was written.
    Written,
    /// The number was read.
    Number(usize),
    /// jemalloc refused it.
    Failed(tikv_jemalloc_ctl::Error),
}

/// What is to be done next.
#[derive(Clone, Copy)]
pub enum Step {
    /// Make this access, and go on with what becomes of it.
    Access(Request),
    /// Nothing more: this is the result.
    Done(Result<(), tikv_jemalloc_ctl::Error>),
}

/// Whether something can become of an access on the way to an active or inactive profiler.
pub open spec fn answers(request: Request, reply: Reply) -> bool {
    match request {
        Request::SetActive(_) | Request::Reset(_) => reply is Written || reply is Failed,
        Request::ReadLgSample => reply is Number,
        _ => false,
    }
}

/// The metadata and the step that follow an access.
///
/// To activate the profiler, it is made active; then the start time is set if it was unset. To
/// deactivate it, it is made inactive, the sample rate is read, and all samples are forgotten at
/// that rate; then the start time is unset. A refused access ends the way, and leaves the start
/// time as it was.
pub open spec fn transition(
    md: JemallocProfMetadata,
    request: Request,
    reply: Reply,
    now: Instant,
) -> (JemallocProfMetadata, Step) {
    match (request, reply) {
        (_, Reply::Failed(error)) => (md, Step::Done(Err(error))),
        (Request::SetActive(true), _) => (
            JemallocProfMetadata {
                start_time: match md.start_time {
                    Some(start_time) => Some(start_time),
                    None => Some(ProfStartTime::Instant(now)),
                },
            },
            Step::Done(Ok(())),
        ),
        (Request::SetActive(false), _) => (md, Step::Access(Request::ReadLgSample)),
        (_, Reply::Number(rate)) => (md, Step::Access(Request::Reset(rate))),
        (_, Reply::Written) => (JemallocProfMetadata { start_time: None }, Step::Done(Ok(()))),
    }
}

impl View for JemallocProfCtl {
    type V = JemallocProfMetadata;

    closed spec fn view(&self) -> JemallocProfMetadata {
        self.md
    }
}

impl JemallocProfCtl {
    /// Creates a handle, by what jemalloc says of its options: whether profiling is enabled, and
    /// if so, whether it was active from the start.
    pub fn get(prof_enabled: bool, prof_active: bool) -> (ctl: Option<Self>)
        ensures
            ctl is Some == prof_enabled,
            ctl matches Some(ctl) ==> ctl@.start_time == if prof_active {
                Some(ProfStartTime::TimeImmemorial)
            } else {
                None
            },
    {
        if prof_enabled {
            let start_time: Option<ProfStartTime> = if prof_active {
                Some(ProfStartTime::TimeImmemorial)
            } else {
                None
            };
            let md = JemallocProfMetadata { start_time };
            Some(Self { md })
        } else {
            None
        }
    }

    /// Returns the metadata of the profiler.
    pub fn get_md(&self) -> (md: JemallocProfMetadata)
        ensures
            md == self@,
    {
        self.md
    }

    /// Returns whether the profiler is active.
    pub fn activated(&self) -> (activated: bool)
        ensures
            activated == self@.start_time is Some,
    {
        self.md.start_time.is_some()
    }

    /// The first access to activate the profiler.
    pub fn activate(&self) -> (request: Request)
        ensures
            request == Request::SetActive(true),
    {
        Request::SetActive(true)
    }

    /// The first access to deactivate the profiler.
    pub fn deactivate(&self) -> (request: Request)
        ensures
            request == Request::SetActive(false),
    {
        Request::SetActive(false)
    }

    /// Goes on after an access.
    pub fn proceed(&mut self, request: Request, reply: Reply, now: Instant) -> (step: Step)
        requires
            answers(request, reply),
        ensures
            (final(self)@, step) == transition(old(self)@, request, reply, now),
    {
        match reply {
            Reply::Failed(error) => Step::Done(Err(error)),
            Reply::Number(rate) => Step::Access(Request::Reset(rate)),
            Reply::Written => match request {
                Request::SetActive(active) => if active {
                    if self.md.start_time.is_none() {
                        self.md.start_time = Some(ProfStartTime::Instant(now));
                    }
                    Step::Done(Ok(()))
                } else {
                    Step::Access(Request::ReadLgSample)
                },
                _ => {
                    self.md.start_time = None;
                    Step::Done(Ok(()))
                },
            },
        }
    }
}

/// What is to be done to activate or deactivate jemalloc profiling.
#[derive(Clone, Copy, Debug, PartialEq, Eq)]
pub enum Plan {
    /// Nothing can be done: profiling is disabled.
    Disabled,
    /// Nothing has to be done.
    Nothing,
    /// This is the first access.
    Access(Request),
}

/// Activate jemalloc profiling, unless it is disabled or active.
pub fn activate_jemalloc_profiling(ctl: Option<&JemallocProfCtl>) -> (plan: Plan)
    ensures
        plan == match ctl {
            None => Plan::Disabled,
            Some(ctl) => if ctl@.start_time is Some {
                Plan::Nothing
            } else {
                Plan::Access(Request::SetActive(true))
            },
        },
{
    match ctl {
        None => Plan::Disabled,
        Some(ctl) => if ctl.activated() {
            Plan::Nothing
        } else {
            Plan::Access(ctl.activate())
        },
    }
}

/// Deactivate jemalloc profiling, unless it is disabled or inactive.
pub fn deactivate_jemalloc_profiling(ctl: Option<&JemallocProfCtl>) -> (plan: Plan)
    ensures
        plan == match ctl {
            None => Plan::Disabled,
            Some(ctl) => if ctl@.start_time is Some {
                Plan::Access(Request::SetActive(false))
            } else {
                Plan::Nothing
            },
        },
{
    match ctl {
        None => Plan::Disabled,
        Some(ctl) => if !ctl.activated() {
            Plan::Nothing
        } else {
            Plan::Access(ctl.deactivate())
        },
    }
}

/// The status of a response to a request that must not be made.
pub const FORBIDDEN: u16 = 403;

/// The status of a response to a request that could not be fulfilled.
pub const INTERNAL_SERVER_ERROR: u16 = 500;

/// Checks whether jemalloc profiling is activated and returns an error response if not.
pub fn require_profiling_activated(prof_ctl: &JemallocProfCtl) -> (result: Result<
    (),
    (u16, String),
>)
    ensures
        match result {
            Ok(_) => prof_ctl@.start_time is Some,
            Err((status, text)) => {
                &&& prof_ctl@.start_time is None
                &&& status == FORBIDDEN
                &&& text@ == "heap profiling not activated"@
            },
        },
{
    if prof_ctl.activated() {
        Ok(())
    } else {
        Err((FORBIDDEN, "heap profiling not activated".to_owned()))
    }
}

/// The response to a request for the heap profile: the profile, or why it could not be dumped.
pub fn handle_get_heap(pprof: Result<Vec<u8>, String>) -> (response: Result<Vec<u8>, (u16, String)>)
    ensures
        response == match pprof {
            Ok(pprof) => Ok::<Vec<u8>, (u16, String)>(pprof),
            Err(error) => Err((INTERNAL_SERVER_ERROR, error)),
        },
{
    match pprof {
        Ok(pprof) => Ok(pprof),
        Err(error) => Err((INTERNAL_SERVER_ERROR, error)),
    }
}

/// An access that jemalloc refuses ends the way with its error, and leaves the metadata as it is.
pub proof fn law_refused_accesses_change_nothing(
    md: JemallocProfMetadata,
    request: Request,
    error: tikv_jemalloc_ctl::Error,
    now: Instant,
)
    ensures
        transition(md, request, Reply::Failed(error), now) == (md, Step::Done(Err(error))),
{
}

/// Activation succeeds if the value can be written. The profiler then has a start time: the one
/// that it had, or else the current one.
pub proof fn law_activation(md: JemallocProfMetadata, now: Instant)
    ensures
        ({
            let (after, step) = transition(md, Request::SetActive(true), Reply::Written, now);
            &&& step == Step::Done(Ok(()))
            &&& after.start_time == match md.start_time {
                Some(start_time) => Some(start_time),
                None => Some(ProfStartTime::Instant(now)),
            }
        }),
{
}

/// To activate an active profiler, at whatever time, changes nothing.
pub proof fn law_activation_twice(md: JemallocProfMetadata, now: Instant, later: Instant)
    ensures
        ({
            let once = transition(md, Request::SetActive(true), Reply::Written, now);
            transition(once.0, Request::SetActive(true), Reply::Written, later) == once
        }),
{
}

/// Deactivation makes three accesses, the last of them at the sample rate that the second one
/// read. If none of them is refused, the profiler has no start time in the end; until then it
/// keeps the one that it had.
pub proof fn law_deactivation(md: JemallocProfMetadata, rate: usize, now: Instant)
    ensures
        transition(md, Request::SetActive(false), Reply::Written, now) == (
            md,
            Step::Access(Request::ReadLgSample),
        ),
        transition(md, Request::ReadLgSample, Reply::Number(rate), now) == (
            md,
            Step::Access(Request::Reset(rate)),
        ),
        transition(md, Request::Reset(rate), Reply::Written, now) == (
            JemallocProfMetadata { start_time: None },
            Step::Done(Ok(())),
        ),
{
}

/// Every way ends: fewer accesses remain after each one.
pub proof fn law_every_way_ends(
    md: JemallocProfMetadata,
    request: Request,
    reply: Reply,
    now: Instant,
)
    requires
        answers(request, reply),
    ensures
        transition(md, request, reply, now).1 matches Step::Access(next) ==> remaining(next)
            < remaining(request),
{
}

/// The greatest number of accesses from one on.
pub open spec fn remaining(request: Request) -> nat {
    match request {
        Request::SetActive(false) => 3,
        Request::ReadLgSample => 2,
        _ => 1,
    }
}

} // verus!
