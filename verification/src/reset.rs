//! The reset-flow front end of the hosts-file engine.
//!
//! Same removal as `hosts::reset_host`; its add operation builds the
//! mapping lines with a tab between IP and hostname instead of a space.

use vstd::prelude::*;
use crate::hosts::add_lines_sep;
use crate::hosts::add_spec;
use crate::hosts::adds_any;
use crate::hosts::filter_hosts_lines;
use crate::hosts::filter_spec;
use crate::hosts::removes_any;

verus! {

/// Remove the marker line and every mapping line whose significant hostname
/// is in `host_names`. Returns whether the file must be written back.
pub fn reset_host(lines: &mut Vec<Vec<u8>>, host_names: &Vec<Vec<u8>>) -> (changed: bool)
    ensures
        final(lines).deep_view() == filter_spec(old(lines).deep_view(), host_names.deep_view()),
        changed == removes_any(old(lines).deep_view(), host_names.deep_view()),
{
    filter_hosts_lines(lines, host_names)
}

/// Add the given `(ip, hostname)` pairs to the in-memory hosts lines, tab
/// separated. Returns whether the file must be written back.
pub fn add_hosts(lines: &mut Vec<Vec<u8>>, hosts: &Vec<(Vec<u8>, Vec<u8>)>) -> (added: bool)
    ensures
        final(lines).deep_view() == add_spec(old(lines).deep_view(), hosts.deep_view(), 9),
        added == adds_any(old(lines).deep_view(), hosts.deep_view(), 9),
{
    add_lines_sep(lines, hosts, 9)
}

} // verus!
