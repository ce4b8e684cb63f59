//! Running CGI scripts: the command, its environment, and when to give up on
//! it.

use crate::http::paths::{parent_of, parent_path};
use crate::http::request::{Request, RequestView};
use crate::numbers::{decimal, decimal_of};
use crate::text::{chars_of, concat3, texts};
use vstd::prelude::*;

verus! {

/// Maximum wall-clock time a CGI child may run before it is killed: ten
/// seconds, in nanoseconds.
pub const CGI_TIMEOUT: u64 = 10_000_000_000;

/// Whether a text can be handed to the system, which ends texts with a zero.
pub open spec fn has_no_nul(s: Seq<char>) -> bool {
    !s.contains('\0')
}

/// Tests whether a text can be handed to the system.
fn is_nul_free(s: &str) -> (r: bool)
    ensures
        r == has_no_nul(s@),
{
    let chars = chars_of(s);
    let mut i: usize = 0;
    while i < chars.len()
        invariant
            i <= chars@.len(),
            chars@ == s@,
            forall|j: int| 0 <= j < i ==> #[trigger] s@[j] != '\0',
        decreases chars@.len() - i,
    {
        if chars[i] == '\0' {
            assert(s@[i as int] == '\0');
            return false;
        }
        i += 1;
    }
    true
}

/// The directory that a script runs in: the one that it lies in, or else the
/// current one.
pub open spec fn directory_of(script: Seq<char>) -> Seq<char> {
    match parent_of(script) {
        Some(dir) => dir,
        None => "."@,
    }
}

/// Gives the directory that a script runs in.
pub fn script_directory(script: &str) -> (r: String)
    ensures
        r@ == directory_of(script@),
{
    match parent_path(script) {
        Some(dir) => dir,
        None => ".".to_owned(),
    }
}

/// A variable of an environment.
pub open spec fn variable(name: Seq<char>, value: Seq<char>) -> Seq<char> {
    name + "="@ + value
}

/// The CGI/1.1 environment of a script.
pub open spec fn environment(script: Seq<char>, req: RequestView) -> Seq<Seq<char>> {
    let base = seq![
        variable("GATEWAY_INTERFACE"@, "CGI/1.1"@),
        variable("SERVER_PROTOCOL"@, "HTTP/1.1"@),
        variable("SERVER_SOFTWARE"@, "localhost"@),
        variable("REQUEST_METHOD"@, req.method),
        variable("QUERY_STRING"@, req.query),
        variable("SCRIPT_NAME"@, req.path),
        variable("PATH_INFO"@, script),
        variable("PATH_TRANSLATED"@, script),
        variable("REDIRECT_STATUS"@, "200"@),
        variable("CONTENT_LENGTH"@, decimal(req.body.len())),
    ];
    match req.headers.get("content-type"@) {
        Some(t) => base.push(variable("CONTENT_TYPE"@, t)),
        None => base,
    }
}

/// A text holds a zero, so that it cannot be handed to the system.
#[derive(Clone, Copy, Debug, PartialEq, Eq)]
pub struct InteriorNul;

/// Adds a variable to an environment.
fn push_variable(out: &mut Vec<String>, name: &str, value: &str)
    ensures
        texts(final(out)@) == texts(old(out)@).push(variable(name@, value@)),
{
    let ghost had = out@;
    out.push(concat3(name, "=", value));
    assert(texts(out@) =~= texts(had).push(variable(name@, value@)));
}

/// Whether every text of a list can be handed to the system.
pub open spec fn all_nul_free(list: Seq<Seq<char>>) -> bool {
    forall|i: int| 0 <= i < list.len() ==> has_no_nul(#[trigger] list[i])
}

/// Builds the CGI/1.1 environment (`KEY=VALUE`).
pub fn build_env(script: &str, req: &Request) -> (r: Result<Vec<String>, InteriorNul>)
    ensures
        r matches Ok(vars) ==> texts(vars@) == environment(script@, req@),
        r is Ok <==> all_nul_free(environment(script@, req@)),
{
    let mut vars: Vec<String> = Vec::new();
    assert(texts(vars@) =~= seq![]);
    push_variable(&mut vars, "GATEWAY_INTERFACE", "CGI/1.1");
    push_variable(&mut vars, "SERVER_PROTOCOL", "HTTP/1.1");
    push_variable(&mut vars, "SERVER_SOFTWARE", "localhost");
    push_variable(&mut vars, "REQUEST_METHOD", req.method.as_str());
    push_variable(&mut vars, "QUERY_STRING", req.query.as_str());
    push_variable(&mut vars, "SCRIPT_NAME", req.path.as_str());
    push_variable(&mut vars, "PATH_INFO", script);
    push_variable(&mut vars, "PATH_TRANSLATED", script);
    // Some interpreters (php-cgi) require this to run in CGI mode.
    push_variable(&mut vars, "REDIRECT_STATUS", "200");
    let length = decimal_of(req.body.len() as u64);
    push_variable(&mut vars, "CONTENT_LENGTH", length.as_str());
    if let Some(t) = req.headers.get("content-type") {
        push_variable(&mut vars, "CONTENT_TYPE", t.as_str());
    }
    let ghost env = environment(script@, req@);
    assert(texts(vars@) =~= env);
    let mut i: usize = 0;
    while i < vars.len()
        invariant
            i <= vars@.len(),
            texts(vars@) == env,
            env == environment(script@, req@),
            forall|j: int| 0 <= j < i ==> has_no_nul(#[trigger] env[j]),
        decreases vars@.len() - i,
    {
        assert(env[i as int] == vars@[i as int]@);
        if !is_nul_free(vars[i].as_str()) {
            return Err(InteriorNul);
        }
        i += 1;
    }
    Ok(vars)
}

/// What it takes to run a script.
pub struct Invocation {
    pub interpreter: String,
    pub script: String,
    pub directory: String,
    pub env: Vec<String>,
}

/// What an [`Invocation`] says.
#[verifier::ext_equal]
pub ghost struct InvocationView {
    pub interpreter: Seq<char>,
    pub script: Seq<char>,
    pub directory: Seq<char>,
    pub env: Seq<Seq<char>>,
}

impl View for Invocation {
    type V = InvocationView;

    open spec fn view(&self) -> InvocationView {
        InvocationView {
            interpreter: self.interpreter@,
            script: self.script@,
            directory: self.directory@,
            env: texts(self.env@),
        }
    }
}

/// The run of a script for a request.
pub open spec fn invocation_of(
    interpreter: Seq<char>,
    script: Seq<char>,
    req: RequestView,
) -> InvocationView {
    InvocationView {
        interpreter,
        script,
        directory: directory_of(script),
        env: environment(script, req),
    }
}

/// Whether a script can be run for a request: no text that the system gets
/// holds a zero.
pub open spec fn can_run(
    interpreter: Seq<char>,
    script: Seq<char>,
    req: RequestView,
) -> bool {
    &&& has_no_nul(interpreter)
    &&& has_no_nul(script)
    &&& has_no_nul(directory_of(script))
    &&& all_nul_free(environment(script, req))
}

/// Prepares the run of a script, which is given by its absolute path.
pub fn prepare(interpreter: &str, script: &str, req: &Request) -> (r: Result<
    Invocation,
    InteriorNul,
>)
    ensures
        r is Ok <==> can_run(interpreter@, script@, req@),
        r matches Ok(run) ==> run@ == invocation_of(interpreter@, script@, req@),
{
    let directory = script_directory(script);
    if !is_nul_free(interpreter) || !is_nul_free(script) || !is_nul_free(directory.as_str()) {
        return Err(InteriorNul);
    }
    match build_env(script, req) {
        Ok(env) => Ok(
            Invocation {
                interpreter: interpreter.to_owned(),
                script: script.to_owned(),
                directory,
                env,
            },
        ),
        Err(e) => Err(e),
    }
}

/// What to do next with a script that runs.
#[derive(Clone, Copy, Debug, PartialEq, Eq, Structural)]
pub enum Next {
    /// Wait for output, for so many milliseconds at most.
    Wait(i32),
    /// Read output.
    Read,
    /// The output is complete.
    Finish,
    /// Kill the script: it took too long.
    Kill,
    /// Give up.
    Fail,
}

/// The output of a script, as it is read.
pub struct OutputReader {
    deadline: u64,
    out: Vec<u8>,
}

impl View for OutputReader {
    type V = Seq<u8>;

    closed spec fn view(&self) -> Seq<u8> {
        self.out@
    }
}

/// How to go on at a given time: wait while the deadline is ahead, for the
/// whole milliseconds that are left.
pub open spec fn until_deadline(deadline: int, now: int) -> Next {
    if now >= deadline {
        Next::Kill
    } else {
        let ms = (deadline - now) / 1_000_000;
        Next::Wait(
            if ms <= i32::MAX {
                ms as i32
            } else {
                i32::MAX
            },
        )
    }
}

/// No wait for a script goes beyond the deadline.
pub proof fn law_waits_end_by_the_deadline(deadline: int, now: int)
    requires
        0 <= now,
        deadline <= u64::MAX,
    ensures
        until_deadline(deadline, now) matches Next::Wait(ms) ==> 0 <= ms && now + ms * 1_000_000
            <= deadline,
        until_deadline(deadline, now) is Kill <==> now >= deadline,
{
}

/// The time at which to give up on a script that was started at `now`.
pub open spec fn deadline_after(now: u64) -> int {
    if now + CGI_TIMEOUT <= u64::MAX {
        now + CGI_TIMEOUT
    } else {
        u64::MAX as int
    }
}

/// How to go on after a wait that gave `ready`.
pub open spec fn after_waiting(deadline: int, ready: i32, interrupted: bool, now: int) -> Next {
    if ready > 0 {
        Next::Read
    } else if ready == 0 {
        Next::Kill
    } else if interrupted {
        until_deadline(deadline, now)
    } else {
        Next::Fail
    }
}

/// How to go on after a read that gave `n`.
pub open spec fn after_reading(deadline: int, n: isize, interrupted: bool, now: int) -> Next {
    if n > 0 || (n < 0 && interrupted) {
        until_deadline(deadline, now)
    } else if n == 0 {
        Next::Finish
    } else {
        Next::Fail
    }
}

/// The output once `data` was read, where the read gave `n`.
pub open spec fn output_with(out: Seq<u8>, n: isize, data: Seq<u8>) -> Seq<u8> {
    if n > 0 {
        out + data
    } else {
        out
    }
}

impl OutputReader {
    /// The time at which to give up.
    pub closed spec fn ends_at(&self) -> int {
        self.deadline as int
    }

    /// Starts to read the output of a script that was started at `now`.
    pub fn new(now: u64) -> (r: Self)
        ensures
            r@ == Seq::<u8>::empty(),
            r.ends_at() == deadline_after(now),
    {
        OutputReader { deadline: now.saturating_add(CGI_TIMEOUT), out: Vec::new() }
    }

    /// Decides whether to wait.
    pub fn before_wait(&self, now: u64) -> (r: Next)
        ensures
            r == until_deadline(self.ends_at(), now as int),
    {
        if now >= self.deadline {
            Next::Kill
        } else {
            let ms: u64 = (self.deadline - now) / 1_000_000;
            if ms <= 0x7fff_ffff {
                Next::Wait(ms as i32)
            } else {
                Next::Wait(0x7fff_ffff)
            }
        }
    }

    /// Decides how to go on after waiting, where `ready` is what the system
    /// gave, and `interrupted` whether it was a signal that ended the wait.
    pub fn after_wait(&self, ready: i32, interrupted: bool, now: u64) -> (r: Next)
        ensures
            r == after_waiting(self.ends_at(), ready, interrupted, now as int),
    {
        if ready > 0 {
            Next::Read
        } else if ready == 0 {
            Next::Kill
        } else if interrupted {
            self.before_wait(now)
        } else {
            Next::Fail
        }
    }

    /// Takes up what was read: `n` is what the system gave, `data` the bytes,
    /// and `interrupted` whether it was a signal that ended the read.
    pub fn after_read(&mut self, n: isize, data: &[u8], interrupted: bool, now: u64) -> (r: Next)
        ensures
            final(self).ends_at() == old(self).ends_at(),
            final(self)@ == output_with(old(self)@, n, data@),
            r == after_reading(old(self).ends_at(), n, interrupted, now as int),
    {
        if n > 0 {
            crate::bytes::push_bytes(&mut self.out, data);
            self.before_wait(now)
        } else if n == 0 {
            Next::Finish
        } else if interrupted {
            self.before_wait(now)
        } else {
            Next::Fail
        }
    }

    /// The output.
    pub fn into_output(self) -> (r: Vec<u8>)
        ensures
            r@ == self@,
    {
        self.out
    }
}

} // verus!
