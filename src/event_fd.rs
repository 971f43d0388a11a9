use vstd::prelude::*;

verus! {

/// An event notification counter shared by device backends and the code that
/// waits on them: a kernel eventfd held through `vmm_sys_util`, whose state Verus
/// does not see.
#[verifier::external_body]
pub struct EventFd {
    fd: vmm_sys_util::eventfd::EventFd,
}

/// Relies on `vmm_sys_util::eventfd::EventFd::new`: opens a kernel eventfd with the
/// given flags and a counter of zero.
#[verifier::external_body]
fn sys_eventfd_new(flag: i32) -> (r: Result<EventFd, std::io::Error>) {
    vmm_sys_util::eventfd::EventFd::new(flag).map(|fd| EventFd { fd })
}

/// Relies on `vmm_sys_util::eventfd::EventFd::write`: adds `v` to the counter.
#[verifier::external_body]
fn sys_eventfd_write(evt: &EventFd, v: u64) -> (r: Result<(), std::io::Error>) {
    evt.fd.write(v)
}

/// Relies on `vmm_sys_util::eventfd::EventFd::read`: takes the counter's value. A
/// read that succeeds never yields zero, since an eventfd read waits for, or fails
/// on, a counter of zero.
#[verifier::external_body]
fn sys_eventfd_read(evt: &EventFd) -> (r: Result<u64, std::io::Error>)
    ensures
        r matches Ok(v) ==> v > 0,
{
    evt.fd.read()
}

/// Relies on `vmm_sys_util::eventfd::EventFd::try_clone`: a second handle on the
/// same eventfd.
#[verifier::external_body]
fn sys_eventfd_try_clone(evt: &EventFd) -> (r: Result<EventFd, std::io::Error>) {
    evt.fd.try_clone().map(|fd| EventFd { fd })
}

impl EventFd {
    /// Opens a new event counter with the given eventfd flags.
    pub fn new(flag: i32) -> (r: Result<EventFd, std::io::Error>) {
        sys_eventfd_new(flag)
    }

    /// Adds `v` to the counter.
    pub fn write(&self, v: u64) -> (r: Result<(), std::io::Error>) {
        sys_eventfd_write(self, v)
    }

    /// Takes the counter's value, which is never zero.
    pub fn read(&self) -> (r: Result<u64, std::io::Error>)
        ensures
            r matches Ok(v) ==> v > 0,
    {
        sys_eventfd_read(self)
    }

    /// A second handle on the same counter.
    pub fn try_clone(&self) -> (r: Result<EventFd, std::io::Error>) {
        sys_eventfd_try_clone(self)
    }
}

/// An event counter used to raise events from legacy devices.
pub struct EventFdTrigger(EventFd);

impl EventFdTrigger {
    /// A trigger that signals `evt`.
    pub fn new(evt: EventFd) -> (r: EventFdTrigger) {
        EventFdTrigger(evt)
    }

    /// Signals the event once.
    pub fn trigger(&self) -> (r: Result<(), std::io::Error>) {
        self.0.write(1)
    }

    /// A second trigger on the same counter.
    pub fn try_clone(&self) -> (r: Result<EventFdTrigger, std::io::Error>) {
        match self.0.try_clone() {
            Ok(evt) => Ok(EventFdTrigger(evt)),
            Err(e) => Err(e),
        }
    }

    /// A handle on the counter that this trigger signals.
    pub fn get_event(&self) -> (r: Result<EventFd, std::io::Error>) {
        self.0.try_clone()
    }
}

} // verus!
