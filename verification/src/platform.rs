//! Resolution of the platform hosts-file path.
//!
//! The path is a pure function of an enumerated platform tag, resolved once
//! at startup by the caller (which knows what it runs on) and handed to the
//! file I/O around the library. Linux and macOS share one fixed path;
//! Windows has its own under the system drivers directory; anything else is
//! a configuration error, not a runtime one.

use vstd::prelude::*;

verus! {

/// The operating systems the hosts store knows a path for, and a tag for
/// every other one.
#[derive(PartialEq, Eq, Structural, Clone, Copy, Debug)]
pub enum Platform {
    Linux,
    MacOs,
    Windows,
    Unsupported,
}

/// `/etc/hosts`, as bytes.
pub open spec fn unix_hosts_path_bytes() -> Seq<u8> {
    seq![47u8, 101, 116, 99, 47, 104, 111, 115, 116, 115]
}

/// `C:\Windows\System32\drivers\etc\hosts`, as bytes.
pub open spec fn windows_hosts_path_bytes() -> Seq<u8> {
    seq![
        67u8, 58, 92, 87, 105, 110, 100, 111, 119, 115, 92, 83, 121, 115, 116, 101, 109, 51, 50,
        92, 100, 114, 105, 118, 101, 114, 115, 92, 101, 116, 99, 92, 104, 111, 115, 116, 115,
    ]
}

/// The fixed hosts-file path of a platform, or `None` for one the store
/// does not support.
pub fn hosts_path(p: Platform) -> (r: Option<Vec<u8>>)
    ensures
        (p == Platform::Linux || p == Platform::MacOs) ==> (r matches Some(b) && b@
            == unix_hosts_path_bytes()),
        p == Platform::Windows ==> (r matches Some(b) && b@ == windows_hosts_path_bytes()),
        p == Platform::Unsupported <==> r is None,
{
    match p {
        Platform::Linux | Platform::MacOs => {
            let b: Vec<u8> = vec![47u8, 101, 116, 99, 47, 104, 111, 115, 116, 115];
            proof {
                assert(b@ =~= unix_hosts_path_bytes());
            }
            Some(b)
        },
        Platform::Windows => {
            let b: Vec<u8> = vec![
                67u8, 58, 92, 87, 105, 110, 100, 111, 119, 115, 92, 83, 121, 115, 116, 101, 109,
                51, 50, 92, 100, 114, 105, 118, 101, 114, 115, 92, 101, 116, 99, 92, 104, 111,
                115, 116, 115,
            ];
            proof {
                assert(b@ =~= windows_hosts_path_bytes());
            }
            Some(b)
        },
        Platform::Unsupported => None,
    }
}

} // verus!
