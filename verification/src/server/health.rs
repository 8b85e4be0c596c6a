//! Whether a running server is well.

use vstd::prelude::*;

use crate::text::{contains_text, has_part, lines, lines_of};

verus! {

/// What a server is asked.
pub fn health_request(host: &str) -> (r: String)
    ensures
        r@ == "GET /healthz HTTP/1.1\r\nHost: "@ + host@ + "\r\nConnection: close\r\n\r\n"@,
{
    let mut s = "GET /healthz HTTP/1.1\r\nHost: ".to_string();
    s.append(host);
    s.append("\r\nConnection: close\r\n\r\n");
    s
}

/// What a server's answer says: that it is well, if its first line says so.
pub fn check_http_response(response: &str) -> (r: Result<(), String>)
    ensures
        ({
            let all = lines(response@);
            if all.len() == 0 {
                r is Err && r->Err_0@ == "empty response from /healthz"@
            } else if has_part(all[0], " 200 "@) {
                r is Ok
            } else {
                r is Err && r->Err_0@ == "unexpected /healthz response: "@ + all[0]
            }
        }),
{
    let all = lines_of(response);
    if all.len() == 0 {
        return Err("empty response from /healthz".to_string());
    }
    assert(lines(response@)[0] == all@[0]@);
    if contains_text(all[0].as_str(), " 200 ") {
        Ok(())
    } else {
        let mut s = "unexpected /healthz response: ".to_string();
        s.append(all[0].as_str());
        Err(s)
    }
}

/// What is known of a server that listens nowhere: it is well, if its vault is there.
/// `marker` is where the vault's own directory should be.
pub fn check_structural(marker: &str, is_dir: bool) -> (r: Result<(), String>)
    ensures
        if is_dir {
            r is Ok
        } else {
            r is Err && r->Err_0@ == "vault '.okf' directory not found at '"@ + marker@ + "'"@
        },
{
    if is_dir {
        Ok(())
    } else {
        let mut s = "vault '.okf' directory not found at '".to_string();
        s.append(marker);
        s.append("'");
        Err(s)
    }
}

} // verus!
