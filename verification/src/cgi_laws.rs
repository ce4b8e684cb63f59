//! What holds of running scripts.

use crate::cgi::{
    after_reading, after_waiting, can_run, deadline_after, directory_of, environment, has_no_nul,
    invocation_of, output_with, until_deadline, variable, Next,
};
use crate::http::paths::{
    anchor, joined_path, law_files_lie_in_their_directory, law_parents_are_shorter, parent_of,
    tidied,
};
use crate::http::request::RequestView;
use crate::number_laws::law_decimals_are_read;
use crate::numbers::{decimal, is_digit};
use vstd::prelude::*;

verus! {

/// A script is told of its request by the variables of CGI/1.1, each once; of
/// the content type only if the request has one.
pub proof fn law_scripts_are_told_of_the_request(script: Seq<char>, req: RequestView)
    ensures
        ({
            let env = environment(script, req);
            let typed = req.headers.contains_key("content-type"@);
            &&& env.len() == (if typed {
                11int
            } else {
                10
            })
            &&& env.contains("GATEWAY_INTERFACE"@ + "="@ + "CGI/1.1"@)
            &&& env.contains("SERVER_PROTOCOL"@ + "="@ + "HTTP/1.1"@)
            &&& env.contains("SERVER_SOFTWARE"@ + "="@ + "localhost"@)
            &&& env.contains("REQUEST_METHOD"@ + "="@ + req.method)
            &&& env.contains("QUERY_STRING"@ + "="@ + req.query)
            &&& env.contains("SCRIPT_NAME"@ + "="@ + req.path)
            &&& env.contains("PATH_INFO"@ + "="@ + script)
            &&& env.contains("PATH_TRANSLATED"@ + "="@ + script)
            &&& env.contains("REDIRECT_STATUS"@ + "="@ + "200"@)
            &&& env.contains("CONTENT_LENGTH"@ + "="@ + decimal(req.body.len()))
            &&& typed ==> env.contains("CONTENT_TYPE"@ + "="@ + req.headers["content-type"@])
        }),
{
    let env = environment(script, req);
    assert(env[0] == variable("GATEWAY_INTERFACE"@, "CGI/1.1"@));
    assert(env[1] == variable("SERVER_PROTOCOL"@, "HTTP/1.1"@));
    assert(env[2] == variable("SERVER_SOFTWARE"@, "localhost"@));
    assert(env[3] == variable("REQUEST_METHOD"@, req.method));
    assert(env[4] == variable("QUERY_STRING"@, req.query));
    assert(env[5] == variable("SCRIPT_NAME"@, req.path));
    assert(env[6] == variable("PATH_INFO"@, script));
    assert(env[7] == variable("PATH_TRANSLATED"@, script));
    assert(env[8] == variable("REDIRECT_STATUS"@, "200"@));
    assert(env[9] == variable("CONTENT_LENGTH"@, decimal(req.body.len())));
    if req.headers.contains_key("content-type"@) {
        assert(env[10] == variable("CONTENT_TYPE"@, req.headers["content-type"@]));
    }
}

proof fn lemma_no_nul(a: Seq<char>, b: Seq<char>)
    ensures
        has_no_nul(a + b) <==> has_no_nul(a) && has_no_nul(b),
{
    let s = a + b;
    if !has_no_nul(a) {
        let i = choose|i: int| 0 <= i < a.len() && a[i] == '\0';
        assert(s[i] == '\0');
    }
    if !has_no_nul(b) {
        let i = choose|i: int| 0 <= i < b.len() && b[i] == '\0';
        assert(s[a.len() + i] == '\0');
    }
    if !has_no_nul(s) {
        let i = choose|i: int| 0 <= i < s.len() && s[i] == '\0';
        if i < a.len() {
            assert(a[i] == '\0');
        } else {
            assert(b[i - a.len()] == '\0');
        }
    }
}

proof fn lemma_variable(name: Seq<char>, value: Seq<char>)
    requires
        has_no_nul(name),
    ensures
        has_no_nul(variable(name, value)) <==> has_no_nul(value),
{
    reveal_strlit("=");
    assert(has_no_nul("="@));
    lemma_no_nul(name, "="@);
    lemma_no_nul(name + "="@, value);
}

/// A script can be run exactly if nothing that the system is handed for it
/// holds a zero: the interpreter, the script, and what the request says.
pub proof fn law_scripts_can_be_run(interpreter: Seq<char>, script: Seq<char>, req: RequestView)
    ensures
        can_run(interpreter, script, req) <==> {
            &&& !interpreter.contains('\0')
            &&& !script.contains('\0')
            &&& !req.method.contains('\0')
            &&& !req.query.contains('\0')
            &&& !req.path.contains('\0')
            &&& req.headers.contains_key("content-type"@)
                ==> !req.headers["content-type"@].contains('\0')
        },
{
    let env = environment(script, req);
    let len = decimal(req.body.len());
    reveal_strlit("GATEWAY_INTERFACE");
    reveal_strlit("CGI/1.1");
    reveal_strlit("SERVER_PROTOCOL");
    reveal_strlit("HTTP/1.1");
    reveal_strlit("SERVER_SOFTWARE");
    reveal_strlit("localhost");
    reveal_strlit("REQUEST_METHOD");
    reveal_strlit("QUERY_STRING");
    reveal_strlit("SCRIPT_NAME");
    reveal_strlit("PATH_INFO");
    reveal_strlit("PATH_TRANSLATED");
    reveal_strlit("REDIRECT_STATUS");
    reveal_strlit("200");
    reveal_strlit("CONTENT_LENGTH");
    reveal_strlit("CONTENT_TYPE");
    law_decimals_are_read(req.body.len());
    assert(has_no_nul(len)) by {
        assert forall|i: int| 0 <= i < len.len() implies #[trigger] len[i] != '\0' by {
            assert(is_digit(len[i], 10));
        }
    }
    lemma_variable("GATEWAY_INTERFACE"@, "CGI/1.1"@);
    lemma_variable("SERVER_PROTOCOL"@, "HTTP/1.1"@);
    lemma_variable("SERVER_SOFTWARE"@, "localhost"@);
    lemma_variable("REQUEST_METHOD"@, req.method);
    lemma_variable("QUERY_STRING"@, req.query);
    lemma_variable("SCRIPT_NAME"@, req.path);
    lemma_variable("PATH_INFO"@, script);
    lemma_variable("PATH_TRANSLATED"@, script);
    lemma_variable("REDIRECT_STATUS"@, "200"@);
    lemma_variable("CONTENT_LENGTH"@, len);
    let typed = req.headers.contains_key("content-type"@);
    if typed {
        lemma_variable("CONTENT_TYPE"@, req.headers["content-type"@]);
        assert(env[10] == variable("CONTENT_TYPE"@, req.headers["content-type"@]));
    }
    assert(env[3] == variable("REQUEST_METHOD"@, req.method));
    assert(env[4] == variable("QUERY_STRING"@, req.query));
    assert(env[5] == variable("SCRIPT_NAME"@, req.path));
    reveal_strlit(".");
    law_parents_are_shorter(script);
    if has_no_nul(script) {
        assert(has_no_nul(directory_of(script))) by {
            match parent_of(script) {
                Some(dir) => {
                    assert forall|i: int| 0 <= i < dir.len() implies #[trigger] dir[i] != '\0' by {
                        assert(dir == script.take(dir.len() as int));
                        assert(script.contains(script[i]));
                    }
                },
                None => {},
            }
        }
    }
}

/// A script runs in the directory that it lies in.
pub proof fn law_scripts_run_where_they_lie(dir: Seq<char>, name: Seq<char>)
    requires
        dir.len() > 0,
        tidied(dir, anchor(dir)) == dir,
        name.len() > 0,
        !name.contains('/'),
        name != "."@,
    ensures
        directory_of(joined_path(dir, name)) == dir,
{
    law_files_lie_in_their_directory(dir, name);
}

/// A script has ten seconds, and is waited for until then: as long as whole
/// milliseconds are left, for all of them at once.
pub proof fn law_scripts_have_ten_seconds(start: u64, now: int)
    requires
        start + 10 * 1_000_000_000 <= u64::MAX,
        0 <= now,
    ensures
        deadline_after(start) == start + 10 * 1_000_000_000,
        now >= start + 10 * 1_000_000_000 ==> until_deadline(deadline_after(start), now) is Kill,
        start <= now < start + 10 * 1_000_000_000 ==> (until_deadline(
            deadline_after(start),
            now,
        ) matches Next::Wait(ms) && {
            &&& 0 <= ms <= 10_000
            &&& now + ms * 1_000_000 <= start + 10 * 1_000_000_000 < now + (ms + 1) * 1_000_000
        }),
{
    assert(start + 10 * 1_000_000_000 == start + 10_000_000_000);
}

/// A script that is started near the end of time is waited for until then.
pub proof fn law_late_scripts_are_waited_for(start: u64)
    requires
        start + 10 * 1_000_000_000 > u64::MAX,
    ensures
        deadline_after(start) == u64::MAX,
{
}

/// What a wait leads to: reading if there is something to read, the end of the
/// script if its time ran out, another wait if it was only a signal, and giving
/// up otherwise.
pub proof fn law_waits_lead_on(deadline: int, ready: i32, now: int)
    ensures
        ready > 0 ==> after_waiting(deadline, ready, false, now) is Read && after_waiting(
            deadline,
            ready,
            true,
            now,
        ) is Read,
        after_waiting(deadline, 0, false, now) is Kill,
        ready < 0 ==> after_waiting(deadline, ready, true, now) == until_deadline(deadline, now),
        ready < 0 ==> after_waiting(deadline, ready, false, now) is Fail,
{
}

/// What a read leads to: what was read is kept, in order, and more is waited
/// for until there is no more; an error gives up, a signal does not.
pub proof fn law_reads_lead_on(deadline: int, out: Seq<u8>, n: isize, data: Seq<u8>, now: int)
    ensures
        n > 0 ==> output_with(out, n, data) == out + data && after_reading(deadline, n, false, now)
            == until_deadline(deadline, now),
        n <= 0 ==> output_with(out, n, data) == out,
        after_reading(deadline, 0, false, now) is Finish,
        n < 0 ==> after_reading(deadline, n, true, now) == until_deadline(deadline, now),
        n < 0 ==> after_reading(deadline, n, false, now) is Fail,
{
}

/// A script is run by its interpreter, under its own path, in the directory
/// that it lies in, with the environment of its request.
pub proof fn law_scripts_are_invoked(interpreter: Seq<char>, script: Seq<char>, req: RequestView)
    ensures
        ({
            let run = invocation_of(interpreter, script, req);
            &&& run.interpreter == interpreter
            &&& run.script == script
            &&& run.env == environment(script, req)
            &&& parent_of(script) matches Some(dir) ==> run.directory == dir
            &&& parent_of(script) is None ==> run.directory == "."@
        }),
{
}

} // verus!
