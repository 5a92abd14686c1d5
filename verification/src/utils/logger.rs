//! The text of log lines; writing them to files is left to the caller.
use vstd::prelude::*;
use crate::http::request::{key_index, lookup, Request, RequestView};
use crate::http::response::{occurs_at, Response};
use crate::utils::text::{decimal, u64_to_decimal};

verus! {

/// The file a log goes to: `log_dir/file_name`.
pub open spec fn log_file(log_dir: Seq<char>, file_name: Seq<char>) -> Seq<char> {
    log_dir + "/"@ + file_name
}

/// The path of a log file inside the log directory.
pub fn log_path(log_dir: &str, file_name: &str) -> (r: String)
    ensures
        r@ == log_file(log_dir@, file_name@),
{
    let mut p = log_dir.to_owned();
    p.append("/");
    p.append(file_name);
    p
}

/// The user agent of a request, or `-` when it sent none.
pub open spec fn user_agent(request: RequestView) -> Seq<char> {
    match key_index(request.headers, "user-agent"@) {
        Some(i) => request.headers[i].1,
        None => "-"@,
    }
}

/// An access log line:
/// `peer - [date] "METHOD path version" status length - "user agent" "local address"`.
pub open spec fn access_entry(
    peer: Seq<char>,
    date: Seq<char>,
    request: RequestView,
    status: Seq<char>,
    content_length: nat,
    local: Seq<char>,
) -> Seq<char> {
    peer + " - ["@ + date + "] \""@ + request.method + " "@ + request.path + " "@ + request.version
        + "\" "@ + status + " "@ + decimal(content_length) + " - \""@ + user_agent(request)
        + "\" \""@ + local + "\""@
}

/// An error log line: `date [concern]: error`.
pub open spec fn error_entry(date: Seq<char>, concern: Seq<char>, error: Seq<char>) -> Seq<char> {
    date + " ["@ + concern + "]: "@ + error
}

/// The access log line for an answered request.
pub fn access_line(peer: &str, date: &str, request: &Request, response: &Response, local: &str) -> (r: String)
    ensures
        r@ == access_entry(
            peer@,
            date@,
            request@,
            response.status@,
            response.content_length as nat,
            local@,
        ),
{
    let mut line = peer.to_owned();
    line.append(" - [");
    line.append(date);
    line.append("] \"");
    line.append(request.method.as_str());
    line.append(" ");
    line.append(request.path.as_str());
    line.append(" ");
    line.append(request.version.as_str());
    line.append("\" ");
    line.append(response.status.as_str());
    line.append(" ");
    let len = u64_to_decimal(response.content_length);
    line.append(len.as_str());
    line.append(" - \"");
    match request.header("user-agent") {
        Some(agent) => line.append(agent.as_str()),
        None => line.append("-"),
    }
    line.append("\" \"");
    line.append(local);
    line.append("\"");
    line
}

/// The error log line for a failure in `concern`.
pub fn error_line(date: &str, concern: &str, error: &str) -> (r: String)
    ensures
        r@ == error_entry(date@, concern@, error@),
{
    let mut line = date.to_owned();
    line.append(" [");
    line.append(concern);
    line.append("]: ");
    line.append(error);
    line
}

/// Law: the user-agent field of an access line is the value stored under the name
/// `user-agent` (as `lookup` finds it), or `-` when the request sent none. The line ends
/// with that field, quoted, and the quoted local address.
pub proof fn access_line_logs_user_agent(
    peer: Seq<char>,
    date: Seq<char>,
    request: RequestView,
    status: Seq<char>,
    content_length: nat,
    local: Seq<char>,
)
    ensures
        ({
            let line = access_entry(peer, date, request, status, content_length, local);
            let agent = match lookup(request.headers, "user-agent"@) {
                Some(u) => u,
                None => "-"@,
            };
            let tail = " - \""@ + agent + "\" \""@ + local + "\""@;
            &&& line.len() >= tail.len()
            &&& line.subrange(line.len() - tail.len(), line.len() as int) == tail
        }),
{
    let line = access_entry(peer, date, request, status, content_length, local);
    let agent = match lookup(request.headers, "user-agent"@) {
        Some(u) => u,
        None => "-"@,
    };
    assert(user_agent(request) == agent);
    let head = peer + " - ["@ + date + "] \""@ + request.method + " "@ + request.path + " "@
        + request.version + "\" "@ + status + " "@ + decimal(content_length);
    let tail = " - \""@ + agent + "\" \""@ + local + "\""@;
    assert(line =~= head + tail);
    assert(line.subrange(head.len() as int, line.len() as int) =~= tail);
}

/// Law: an access line starts with the peer address and the bracketed date, followed by
/// the quoted request line (method, path and version as parsed), the status and the
/// decimal content length.
pub proof fn access_line_logs_request(
    peer: Seq<char>,
    date: Seq<char>,
    request: RequestView,
    status: Seq<char>,
    content_length: nat,
    local: Seq<char>,
)
    ensures
        occurs_at(
            access_entry(peer, date, request, status, content_length, local),
            peer + " - ["@ + date + "] \""@ + request.method + " "@ + request.path + " "@ + request.version
                + "\" "@ + status + " "@ + decimal(content_length),
            0,
        ),
{
    let line = access_entry(peer, date, request, status, content_length, local);
    let head = peer + " - ["@ + date + "] \""@ + request.method + " "@ + request.path + " "@
        + request.version + "\" "@ + status + " "@ + decimal(content_length);
    let rest = " - \""@ + user_agent(request) + "\" \""@ + local + "\""@;
    assert(line =~= head + rest);
    assert(line.subrange(0, head.len() as int) =~= head);
}

} // verus!
