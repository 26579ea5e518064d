//! Capability kinds a segment may declare. Anything a segment does not declare it cannot reach.

use vstd::prelude::*;

verus! {

pub const NET_HOST: u16 = 1;

pub const FS_READ: u16 = 2;

pub const FS_WRITE: u16 = 3;

pub const ENV: u16 = 4;

pub const EXEC: u16 = 5;

pub const CLOCK: u16 = 6;

pub const RAND: u16 = 7;

pub const STDIO: u16 = 8;

pub open spec fn name_spec(kind: u16) -> Seq<char> {
    if kind == 1 {
        "net:host"@
    } else if kind == 2 {
        "fs:read"@
    } else if kind == 3 {
        "fs:write"@
    } else if kind == 4 {
        "env"@
    } else if kind == 5 {
        "exec"@
    } else if kind == 6 {
        "clock"@
    } else if kind == 7 {
        "rand"@
    } else if kind == 8 {
        "stdio"@
    } else {
        "unknown"@
    }
}

/// The capability's name as segment disclosure reports it.
pub fn name(kind: u16) -> (r: &'static str)
    ensures
        r@ == name_spec(kind),
{
    if kind == NET_HOST {
        "net:host"
    } else if kind == FS_READ {
        "fs:read"
    } else if kind == FS_WRITE {
        "fs:write"
    } else if kind == ENV {
        "env"
    } else if kind == EXEC {
        "exec"
    } else if kind == CLOCK {
        "clock"
    } else if kind == RAND {
        "rand"
    } else if kind == STDIO {
        "stdio"
    } else {
        "unknown"
    }
}

} // verus!
