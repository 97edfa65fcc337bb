//! The download address check and the response checks behind the native update client.
use crate::model::AppResult;
use crate::text::{append, chars_of, find_char, first_index, has_prefix, slice_chars, starts_with, str_equal, string_of};
use vstd::prelude::*;

verus! {

/// The host and the path (with its leading `/`) of an update address: only HTTPS
/// addresses on the GitHub host that carry a path are accepted.
pub open spec fn https_parts(url: Seq<char>) -> Result<(Seq<char>, Seq<char>), Seq<char>> {
    let scheme = "https://"@;
    if !has_prefix(url, scheme) {
        Err("Only HTTPS update URLs are accepted."@)
    } else {
        let rest = url.skip(scheme.len() as int);
        match first_index(rest, '/') {
            None => Err("Update URL is missing a path."@),
            Some(i) => if rest.take(i) != "github.com"@ {
                Err("Update URL host is not the expected GitHub host."@)
            } else {
                Ok((rest.take(i), rest.skip(i)))
            },
        }
    }
}

/// The decision after each read of an update response: fail once more than `max_bytes`
/// were received, fail when the finished response is empty, otherwise go on (or accept
/// the finished body).
pub fn response_check(received: usize, max_bytes: usize, finished: bool) -> (r: AppResult<()>)
    ensures
        r is Ok <==> received <= max_bytes && (finished ==> received > 0),
        r matches Err(m) ==> m@ == if received > max_bytes {
            "Update download exceeded the safety size limit."@
        } else {
            "GitHub returned an empty update response."@
        },
{
    if received > max_bytes {
        return Err("Update download exceeded the safety size limit.".to_string());
    }
    if finished && received == 0 {
        return Err("GitHub returned an empty update response.".to_string());
    }
    Ok(())
}

/// Splits an update address into its host and path.
pub fn split_https(url: &str) -> (r: AppResult<(String, String)>)
    ensures
        match https_parts(url@) {
            Ok((host, path)) => r matches Ok((h, p)) && h@ == host && p@ == path,
            Err(e) => r matches Err(m) && m@ == e,
        },
{
    let s = chars_of(url);
    let scheme = chars_of("https://");
    if !starts_with(&s, &scheme) {
        return Err("Only HTTPS update URLs are accepted.".to_string());
    }
    let rest = slice_chars(&s, scheme.len(), s.len());
    proof {
        assert(rest@ =~= url@.skip(scheme@.len() as int));
    }
    match find_char(&rest, '/') {
        None => {
            proof {
                assert(first_index(rest@, '/') is None);
            }
            Err("Update URL is missing a path.".to_string())
        },
        Some(i) => {
            proof {
                assert(first_index(rest@, '/') == Some(i as int)) by {
                    let c = choose|k: int| 0 <= k < rest@.len() && rest@[k] == '/' && forall|j: int| 0 <= j < k ==> rest@[j] != '/';
                    if c < i {
                    } else if c > i {
                    }
                }
            }
            let host = string_of(&slice_chars(&rest, 0, i));
            proof {
                assert(host@ =~= rest@.take(i as int));
            }
            if !str_equal(host.as_str(), "github.com") {
                return Err("Update URL host is not the expected GitHub host.".to_string());
            }
            let path = string_of(&slice_chars(&rest, i, rest.len()));
            proof {
                assert(path@ =~= rest@.skip(i as int));
            }
            Ok((host, path))
        },
    }
}


/// What the update check tells the user: that the installed version is current, or
/// which version is available and what installing it does.
pub open spec fn update_notice_spec(installed: Seq<char>, available: Option<Seq<char>>) -> Seq<char> {
    match available {
        None => "You are up to date.\n\nInstalled version: "@ + installed,
        Some(v) => "Process Optimizer "@ + v + " is available.\n\nInstalled: "@ + installed + "\nAvailable: "@ + v
            + "\n\nDownload, verify, replace the local app, and restart now?"@,
    }
}

/// The update check's message for the installed version and the newer one, if any.
pub fn update_notice(installed: &str, available: Option<&str>) -> (r: String)
    ensures
        r@ == update_notice_spec(installed@, match available {
            Some(v) => Some(v@),
            None => None,
        }),
{
    let mut t: Vec<char> = Vec::new();
    match available {
        None => {
            append(&mut t, "You are up to date.\n\nInstalled version: ");
            append(&mut t, installed);
        },
        Some(v) => {
            append(&mut t, "Process Optimizer ");
            append(&mut t, v);
            append(&mut t, " is available.\n\nInstalled: ");
            append(&mut t, installed);
            append(&mut t, "\nAvailable: ");
            append(&mut t, v);
            append(&mut t, "\n\nDownload, verify, replace the local app, and restart now?");
        },
    }
    string_of(&t)
}


/// The file names under which a version's application and updater are downloaded.
pub fn download_names(version: &str) -> (r: (String, String))
    ensures
        r.0@ == "process-optimizer-"@ + version@ + ".exe"@,
        r.1@ == "process-optimizer-updater-"@ + version@ + ".exe"@,
{
    let mut a: Vec<char> = Vec::new();
    append(&mut a, "process-optimizer-");
    append(&mut a, version);
    append(&mut a, ".exe");
    let mut u: Vec<char> = Vec::new();
    append(&mut u, "process-optimizer-updater-");
    append(&mut u, version);
    append(&mut u, ".exe");
    (string_of(&a), string_of(&u))
}

} // verus!
