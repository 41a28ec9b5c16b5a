//! Names used when a pair of virtual ethernet interfaces is set up.

use vstd::prelude::*;
use vstd::string::*;

verus! {

/// The kernel setting, as `key=value`, that switches IPv6 off on the
/// interface `eth`, so that only packets sent on purpose arrive on it.
pub fn disable_ipv6(eth: &str) -> (name: String)
    ensures
        name@ == "net.ipv6.conf."@ + eth@ + ".disable_ipv6=1"@,
{
    let mut name = String::from_str("net.ipv6.conf.");
    name.append(eth);
    name.append(".disable_ipv6=1");
    name
}

} // verus!
