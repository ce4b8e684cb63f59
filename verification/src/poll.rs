//! I/O multiplexing: what file descriptors wait for, and what a poller says
//! of them.
//!
//! A server is driven by one call of a poller per loop tick. The calls differ
//! from system to system (`epoll`, `kqueue`); how interests become flags, and
//! flags events, stands here, with the values of the flags as arguments.

use vstd::prelude::*;

verus! {

/// A file descriptor.
pub type RawFd = libc::c_int;

/// What a file descriptor is currently waiting for.
#[derive(Clone, Copy, Debug, PartialEq, Eq, Structural)]
pub struct Interest {
    pub readable: bool,
    pub writable: bool,
}

impl Interest {
    /// An interest in reading alone.
    pub fn to_read() -> (r: Interest)
        ensures
            r == (Interest { readable: true, writable: false }),
    {
        Interest { readable: true, writable: false }
    }

    /// An interest in writing alone.
    pub fn to_write() -> (r: Interest)
        ensures
            r == (Interest { readable: false, writable: true }),
    {
        Interest { readable: false, writable: true }
    }
}

/// A readiness notification for a single fd.
#[derive(Clone, Copy, Debug)]
pub struct Event {
    pub fd: RawFd,
    pub readable: bool,
    pub writable: bool,
}

/// The flags of an `epoll` event.
#[derive(Clone, Copy)]
pub struct EpollFlags {
    pub input: u32,
    pub output: u32,
    pub hangup: u32,
    pub error: u32,
}

impl EpollFlags {
    /// The flags to register for an interest.
    pub open spec fn mask_of(self, interest: Interest) -> u32 {
        (if interest.readable {
            self.input
        } else {
            0
        }) | (if interest.writable {
            self.output
        } else {
            0
        })
    }

    /// The flags to register for an interest.
    pub fn mask(self, interest: Interest) -> (r: u32)
        ensures
            r == self.mask_of(interest),
    {
        let a: u32 = if interest.readable {
            self.input
        } else {
            0
        };
        let b: u32 = if interest.writable {
            self.output
        } else {
            0
        };
        a | b
    }

    /// Whether flags say that there is something to read, or that something is
    /// wrong, which a read will show.
    pub open spec fn says_readable(self, flags: u32) -> bool {
        flags & (self.input | self.hangup | self.error) != 0
    }

    /// Whether flags say that there is room to write.
    pub open spec fn says_writable(self, flags: u32) -> bool {
        flags & self.output != 0
    }

    /// The event that flags stand for. A hangup or an error counts as
    /// readable, so that the handler performs the read, observes the end or
    /// the error, and removes the client.
    pub fn event(self, key: u64, flags: u32) -> (r: Event)
        ensures
            r.fd == fd_of(key),
            r.readable == self.says_readable(flags),
            r.writable == self.says_writable(flags),
    {
        Event {
            fd: fd_in(key),
            readable: flags & (self.input | self.hangup | self.error) != 0,
            writable: flags & self.output != 0,
        }
    }
}

/// The key under which a file descriptor is registered.
pub open spec fn key_of(fd: RawFd) -> u64 {
    fd as u64
}

/// The file descriptor that a key stands for.
pub open spec fn fd_of(key: u64) -> RawFd {
    key as i32
}

/// Gives the key under which to register a file descriptor.
pub fn key_for(fd: RawFd) -> (r: u64)
    ensures
        r == key_of(fd),
{
    #[verifier::truncate]
    (fd as u64)
}

/// Gives the file descriptor that a key stands for.
pub fn fd_in(key: u64) -> (r: RawFd)
    ensures
        r == fd_of(key),
{
    #[verifier::truncate]
    (key as i32)
}

/// A key stands for the file descriptor that was registered under it.
pub proof fn law_keys_round_trip(fd: RawFd)
    ensures
        fd_of(key_of(fd)) == fd,
{
    assert((fd as u64) as i32 == fd) by (bit_vector);
}

/// How long a poller may block, in milliseconds; -1 stands for any time.
pub open spec fn block_for(millis: Option<u128>) -> int {
    match millis {
        Some(ms) => if ms <= i32::MAX {
            ms as int
        } else {
            i32::MAX as int
        },
        None => -1,
    }
}

/// Gives the argument with which a poller blocks for a given time.
pub fn timeout_ms(millis: Option<u128>) -> (r: i32)
    ensures
        r == block_for(millis),
{
    match millis {
        Some(ms) => if ms <= 0x7fff_ffff {
            ms as i32
        } else {
            0x7fff_ffff
        },
        None => -1,
    }
}

/// Whether a poller that gave `n` was only interrupted by a signal.
pub open spec fn is_interruption(n: i32, errno: Option<i32>, eintr: i32) -> bool {
    n < 0 && errno == Some(eintr)
}

/// Tells whether a poller that gave `n` was only interrupted by a signal: not
/// fatal, just retry next tick.
pub fn was_interrupted(n: i32, errno: Option<i32>, eintr: i32) -> (r: bool)
    ensures
        r == is_interruption(n, errno, eintr),
{
    n < 0 && match errno {
        Some(e) => e == eintr,
        None => false,
    }
}

/// The flags of a `kqueue` change.
#[derive(Clone, Copy)]
pub struct KqueueFlags {
    pub add: u16,
    pub enable: u16,
    pub delete: u16,
}

impl KqueueFlags {
    /// The flags for one filter.
    pub open spec fn change_for(self, wanted: bool) -> u16 {
        if wanted {
            self.add | self.enable
        } else {
            self.delete
        }
    }

    /// Whether a change that failed can be passed over.
    pub open spec fn can_pass_over(self, errno: Option<i32>, enoent: i32, flags: u16) -> bool {
        errno == Some(enoent) && flags & self.delete != 0
    }

    /// The flags for one filter: enabled if it is wanted, else deleted.
    pub fn change(self, wanted: bool) -> (r: u16)
        ensures
            r == self.change_for(wanted),
    {
        if wanted {
            self.add | self.enable
        } else {
            self.delete
        }
    }

    /// Tells whether a change that failed is benign: deleting a filter that
    /// was never registered.
    pub fn is_benign(self, errno: Option<i32>, enoent: i32, flags: u16) -> (r: bool)
        ensures
            r == self.can_pass_over(errno, enoent, flags),
    {
        match errno {
            Some(e) => e == enoent && flags & self.delete != 0,
            None => false,
        }
    }

    /// The event that a filter stands for. Each carries exactly one.
    pub fn event(ident: usize, filter: i16, read: i16, write: i16) -> (r: Event)
        ensures
            r.fd == ident as i32,
            r.readable == (filter == read),
            r.writable == (filter == write),
    {
        Event {
            fd: #[verifier::truncate] (ident as i32),
            readable: filter == read,
            writable: filter == write,
        }
    }
}

/// An interest in reading is seen in an event with the flag for input, and an
/// interest in writing in one with the flag for output, where the flags are
/// different bits; an event with none of the flags says nothing.
pub proof fn law_interest_is_seen(f: EpollFlags, interest: Interest)
    requires
        f.input != 0,
        f.output != 0,
        f.input & f.output == 0,
        f.hangup & f.output == 0,
        f.error & f.output == 0,
    ensures
        ({
            let flags = f.mask_of(interest);
            &&& f.says_readable(flags) == interest.readable
            &&& f.says_writable(flags) == interest.writable
        }),
{
    let a = f.input;
    let b = f.output;
    let c = f.hangup;
    let d = f.error;
    assert(a & b == 0 && c & b == 0 && d & b == 0 && a != 0 && b != 0 ==> {
        &&& (a | b) & (a | c | d) != 0
        &&& (a | b) & b != 0
        &&& (a | 0) & (a | c | d) != 0
        &&& (a | 0) & b == 0
        &&& (0 | b) & (a | c | d) == 0
        &&& (0 | b) & b != 0
        &&& (0u32 | 0u32) & (a | c | d) == 0
        &&& (0u32 | 0u32) & b == 0
    }) by (bit_vector);
}

/// A hangup or an error is seen as something to read, whatever was waited for;
/// room to write is seen by its own flag alone.
pub proof fn law_trouble_is_seen(f: EpollFlags, flags: u32)
    ensures
        f.says_readable(flags) <==> flags & f.input != 0 || flags & f.hangup != 0 || flags & f.error
            != 0,
        f.says_writable(flags) <==> flags & f.output != 0,
{
    let a = f.input;
    let b = f.hangup;
    let c = f.error;
    assert(flags & (a | b | c) != 0 <==> flags & a != 0 || flags & b != 0 || flags & c != 0)
        by (bit_vector);
}

/// A poller blocks for the time that it is given, as far as that can be said,
/// and without end where it is given none.
pub proof fn law_pollers_block(ms: u128)
    ensures
        ms <= 2147483647 ==> block_for(Some(ms)) == ms,
        ms > 2147483647 ==> block_for(Some(ms)) == 2147483647,
        block_for(None) == -1,
{
}

/// A signal is no failure; any other error of a poller is.
pub proof fn law_signals_are_no_failure(n: i32, errno: i32, eintr: i32)
    ensures
        n < 0 ==> is_interruption(n, Some(eintr), eintr),
        errno != eintr ==> !is_interruption(n, Some(errno), eintr),
        !is_interruption(n, None, eintr),
        n >= 0 ==> !is_interruption(n, Some(errno), eintr),
{
}

/// A filter that is wanted is added and enabled, and one that is not is
/// deleted. That one to delete was not there does no harm; any other failure
/// does.
pub proof fn law_filters_are_changed(f: KqueueFlags, errno: i32, enoent: i32)
    requires
        f.delete != 0,
        (f.add | f.enable) & f.delete == 0,
    ensures
        f.change_for(true) == f.add | f.enable,
        f.change_for(false) == f.delete,
        f.can_pass_over(Some(enoent), enoent, f.change_for(false)),
        !f.can_pass_over(Some(enoent), enoent, f.change_for(true)),
        errno != enoent ==> !f.can_pass_over(Some(errno), enoent, f.change_for(false)),
        !f.can_pass_over(None, enoent, f.change_for(false)),
{
    let d = f.delete;
    assert(d & d == d) by (bit_vector);
}

/// What is registered for an interest is the flag for each thing that is waited
/// for, and nothing else.
pub proof fn law_interests_are_registered(f: EpollFlags)
    ensures
        f.mask_of(Interest { readable: true, writable: true }) == f.input | f.output,
        f.mask_of(Interest { readable: true, writable: false }) == f.input,
        f.mask_of(Interest { readable: false, writable: true }) == f.output,
        f.mask_of(Interest { readable: false, writable: false }) == 0,
{
    let a = f.input;
    let b = f.output;
    assert(a | 0 == a && 0 | b == b && 0u32 | 0u32 == 0) by (bit_vector);
}

} // verus!
