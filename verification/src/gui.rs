//! The back end of the desktop view: every listening port with its owner, read
//! from an `ss -tlnp` report.

use vstd::prelude::*;
use sysinfo::System;
use crate::monitor::PortMonitor;
use crate::ports::{named_owner_entries, named_owners, port_views};
use crate::proc_net::strictly_increasing;
use crate::ss::{lists_map, pair_ports, port_pid_map, ss_port_pids};
use crate::system::{new_system, process_name, process_names};
use crate::text::text_lines;

pub use crate::ports::PortInfo;
pub use crate::proc_net::parse_port;

verus! {

/// `i` is the first position of an entry for `port` in `listed`.
pub open spec fn first_entry_for(listed: Seq<(u16, Seq<char>, u32)>, port: u16, i: int) -> bool {
    0 <= i < listed.len() && listed[i].0 == port && forall|j: int| 0 <= j < i ==> listed[j].0 != port
}

/// What `get_port_details` gives for `port` when the listing is `listed` and the
/// second snapshot names the processes `later`: the first entry for `port`, with
/// that snapshot, exactly when there is one whose owner the snapshot holds.
pub open spec fn details_outcome(
    r: Option<(PortInfo, System)>,
    listed: Seq<(u16, Seq<char>, u32)>,
    later: Map<u32, Seq<char>>,
    port: u16,
) -> bool {
    &&& r is Some <==> exists|i: int| first_entry_for(listed, port, i) && later.dom().contains(listed[i].2)
    &&& r matches Some((entry, system)) ==> process_names(system) == later && exists|i: int|
        first_entry_for(listed, port, i) && listed[i] == entry@
}

/// The ports of the entries of a listing.
pub open spec fn entry_ports(listed: Seq<(u16, Seq<char>, u32)>) -> Seq<u16> {
    listed.map_values(|e: (u16, Seq<char>, u32)| e.0)
}

proof fn lemma_named_pairs(pairs: Seq<(u16, u32)>, names: Map<u32, Seq<char>>)
    requires
        strictly_increasing(pair_ports(pairs)),
    ensures
        strictly_increasing(entry_ports(named_owners(pairs, names))),
        forall|i: int|
            0 <= i < named_owners(pairs, names).len() ==> exists|j: int|
                0 <= j < pairs.len() && #[trigger] named_owners(pairs, names)[i] == (
                    pairs[j].0,
                    names[pairs[j].1],
                    pairs[j].1,
                ) && names.dom().contains(pairs[j].1),
        forall|j: int|
            0 <= j < pairs.len() && names.dom().contains(#[trigger] pairs[j].1) ==> entry_ports(
                named_owners(pairs, names),
            ).contains(pairs[j].0),
    decreases pairs.len(),
{
    let listed = named_owners(pairs, names);
    if pairs.len() > 0 {
        let d = pairs.drop_last();
        assert(strictly_increasing(pair_ports(d))) by {
            assert forall|a: int, b: int| 0 <= a < b < pair_ports(d).len() implies pair_ports(
                d,
            )[a] < pair_ports(d)[b] by {
                assert(pair_ports(d)[a] == pair_ports(pairs)[a]);
                assert(pair_ports(d)[b] == pair_ports(pairs)[b]);
            }
        }
        lemma_named_pairs(d, names);
        let before = named_owners(d, names);
        let last = pairs.last();
        assert forall|i: int| 0 <= i < before.len() implies before[i].0 < last.0 by {
            let j = choose|j: int|
                0 <= j < d.len() && #[trigger] before[i] == (d[j].0, names[d[j].1], d[j].1)
                    && names.dom().contains(d[j].1);
            assert(pair_ports(pairs)[j] < pair_ports(pairs)[pairs.len() - 1]);
        }
        assert forall|i: int|
            0 <= i < listed.len() implies exists|j: int|
                0 <= j < pairs.len() && #[trigger] listed[i] == (
                    pairs[j].0,
                    names[pairs[j].1],
                    pairs[j].1,
                ) && names.dom().contains(pairs[j].1) by {
            if i < before.len() {
                assert(listed[i] == before[i]);
                let j = choose|j: int|
                    0 <= j < d.len() && #[trigger] before[i] == (d[j].0, names[d[j].1], d[j].1)
                        && names.dom().contains(d[j].1);
                assert(pairs[j] == d[j]);
            } else {
                assert(listed[i] == (last.0, names[last.1], last.1));
                assert(pairs[pairs.len() - 1] == last);
            }
        }
        assert forall|a: int, b: int|
            0 <= a < b < entry_ports(listed).len() implies entry_ports(listed)[a] < entry_ports(
                listed,
            )[b] by {
            assert(listed[a] == before[a]);
            if b < before.len() {
                assert(listed[b] == before[b]);
                assert(entry_ports(before)[a] < entry_ports(before)[b]);
            }
        }
        assert forall|j: int|
            0 <= j < pairs.len() && names.dom().contains(#[trigger] pairs[j].1) implies entry_ports(
                listed,
            ).contains(pairs[j].0) by {
            if j < d.len() {
                assert(d[j] == pairs[j]);
                let i = choose|i: int| 0 <= i < entry_ports(before).len() && entry_ports(before)[i] == d[j].0;
                assert(entry_ports(listed)[i] == entry_ports(before)[i]);
            } else {
                assert(entry_ports(listed)[listed.len() - 1] == pairs[j].0);
            }
        }
    } else {
        assert(entry_ports(listed) =~= Seq::<u16>::empty());
    }
}

/// The desktop view lists each port of the report once, in increasing order:
/// every entry pairs a port with the pid that the last line naming the port gives
/// it and with that process's name, and every such port whose owner the snapshot
/// holds is listed.
pub proof fn lemma_port_listing(
    pairs: Seq<(u16, u32)>,
    ports: Map<u16, u32>,
    names: Map<u32, Seq<char>>,
)
    requires
        lists_map(pairs, ports),
    ensures
        strictly_increasing(entry_ports(named_owners(pairs, names))),
        forall|i: int|
            0 <= i < named_owners(pairs, names).len() ==> {
                let e = #[trigger] named_owners(pairs, names)[i];
                &&& ports.dom().contains(e.0)
                &&& ports[e.0] == e.2
                &&& names.dom().contains(e.2)
                &&& names[e.2] == e.1
            },
        forall|p: u16|
            ports.dom().contains(p) && names.dom().contains(#[trigger] ports[p]) ==> entry_ports(
                named_owners(pairs, names),
            ).contains(p),
{
    lemma_named_pairs(pairs, names);
    let listed = named_owners(pairs, names);
    assert forall|i: int| 0 <= i < listed.len() implies {
        let e = #[trigger] listed[i];
        &&& ports.dom().contains(e.0)
        &&& ports[e.0] == e.2
        &&& names.dom().contains(e.2)
        &&& names[e.2] == e.1
    } by {
        let j = choose|j: int|
            0 <= j < pairs.len() && #[trigger] listed[i] == (pairs[j].0, names[pairs[j].1], pairs[j].1)
                && names.dom().contains(pairs[j].1);
        assert(pair_ports(pairs)[j] == pairs[j].0);
        assert(pair_ports(pairs).contains(pairs[j].0));
    }
    assert forall|p: u16|
        ports.dom().contains(p) && names.dom().contains(#[trigger] ports[p]) implies entry_ports(
            listed,
        ).contains(p) by {
        let j = choose|j: int| 0 <= j < pair_ports(pairs).len() && pair_ports(pairs)[j] == p;
        assert(pairs[j].0 == p);
        assert(ports[pairs[j].0] == pairs[j].1);
    }
}

/// The desktop view's back end.
pub struct GuiBackend {
    monitor: PortMonitor,
}

impl GuiBackend {
    /// A back end with its own monitor.
    pub fn new() -> Self {
        GuiBackend { monitor: PortMonitor::new() }
    }

    /// The monitor that kills processes for the back end.
    pub closed spec fn port_monitor(&self) -> PortMonitor {
        self.monitor
    }

    /// The monitor that kills processes for the back end.
    pub fn monitor(&self) -> (m: &PortMonitor)
        ensures
            *m == self.port_monitor(),
    {
        &self.monitor
    }

    /// The listening ports of the report `ss_report`, in increasing order and once
    /// each (the last line that names a port giving its pid), each with the name
    /// of its owner as a fresh snapshot of the processes holds it; ports whose
    /// owner the snapshot lacks are left out.
    pub fn get_all_ports(&self, ss_report: &str) -> (ports: Vec<PortInfo>)
        ensures
            exists|pairs: Seq<(u16, u32)>, snapshot: System|
                lists_map(pairs, port_pid_map(text_lines(ss_report@))) && port_views(ports@)
                    == #[trigger] named_owners(pairs, process_names(snapshot)),
            strictly_increasing(entry_ports(port_views(ports@))),
    {
        let pairs = ss_port_pids(ss_report);
        let system = new_system();
        let ports = named_owner_entries(&pairs, &system);
        proof {
            lemma_port_listing(pairs@, port_pid_map(text_lines(ss_report@)), process_names(system));
        }
        ports
    }

    /// The first entry for `port` among `get_all_ports(ss_report)`, together with
    /// a second fresh snapshot of the processes, when that snapshot holds the
    /// entry's owner; none when the port is not listed or the second snapshot
    /// lacks its owner.
    pub fn get_port_details(&self, ss_report: &str, port: u16) -> (r: Option<(PortInfo, System)>)
        ensures
            exists|pairs: Seq<(u16, u32)>, first: System, later: System|
                lists_map(pairs, port_pid_map(text_lines(ss_report@))) && #[trigger] details_outcome(
                    r,
                    named_owners(pairs, process_names(first)),
                    process_names(later),
                    port,
                ),
    {
        let pairs = ss_port_pids(ss_report);
        let first = new_system();
        let ports = named_owner_entries(&pairs, &first);
        let ghost listed = port_views(ports@);
        match first_entry_index(&ports, port) {
            None => {
                assert(details_outcome(None, listed, process_names(first), port));
                None
            },
            Some(_) => {
                let later = new_system();
                let r = details_from(ports, later, port);
                assert(details_outcome(r, listed, process_names(later), port));
                r
            },
        }
    }
}

/// The position of the first entry for `port` in `ports`.
fn first_entry_index(ports: &Vec<PortInfo>, port: u16) -> (r: Option<usize>)
    ensures
        r matches Some(i) ==> first_entry_for(port_views(ports@), port, i as int),
        r is None ==> forall|i: int| 0 <= i < ports@.len() ==> port_views(ports@)[i].0 != port,
{
    let n = ports.len();
    let mut k: usize = 0;
    while k < n
        invariant
            k <= n,
            n == ports@.len(),
            forall|j: int| 0 <= j < k ==> port_views(ports@)[j].0 != port,
        decreases n - k,
    {
        if ports[k].port == port {
            return Some(k);
        }
        k = k + 1;
    }
    None
}

/// The first entry for `port` in `listed`, together with the snapshot `later`,
/// when `later` holds the entry's owner (looked up by the entry's pid); none when
/// `listed` has no entry for `port` or `later` lacks its owner.
pub fn details_from(listed: Vec<PortInfo>, later: System, port: u16) -> (r: Option<(PortInfo, System)>)
    ensures
        details_outcome(r, port_views(listed@), process_names(later), port),
{
    let ghost views = port_views(listed@);
    let mut listed = listed;
    match first_entry_index(&listed, port) {
        None => None,
        Some(k) => {
            if process_name(&later, listed[k].pid).is_some() {
                let found = listed.remove(k);
                assert(views[k as int] == found@);
                Some((found, later))
            } else {
                assert forall|i: int| first_entry_for(views, port, i) implies !process_names(
                    later,
                ).dom().contains(views[i].2) by {
                    if i > k {
                        assert(views[k as int].0 == port);
                    } else if i < k {
                        assert(views[i].0 != port);
                    }
                }
                None
            }
        },
    }
}

} // verus!
