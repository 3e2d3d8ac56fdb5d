//! The port monitor: which processes own the listening sockets on a port, and
//! the decisions of the command-line commands around it.

use vstd::prelude::*;
use sysinfo::System;
use crate::numbers::{parse_unsigned, parse_unsigned_exec};
use crate::proc_net::{is_listening_port, listening_ports, strictly_increasing};
use crate::ss::{port_owner_pids, ss_port_owner_pids};
use crate::system::{new_system, process_name, process_names};
use crate::text::{
    char_rows, chars_of, eq_ignore_ascii_case, eq_ignore_ascii_case_exec, pieces, pieces_of, text_lines,
    trim, trim_chars,
};

verus! {

/// The pids of `pids` that `names` knows, each with its name, in order.
pub open spec fn named_pids(pids: Seq<u32>, names: Map<u32, Seq<char>>) -> Seq<(u32, Seq<char>)>
    decreases pids.len(),
{
    if pids.len() == 0 {
        seq![]
    } else {
        let before = named_pids(pids.drop_last(), names);
        let pid = pids.last();
        if names.dom().contains(pid) {
            before.push((pid, names[pid]))
        } else {
            before
        }
    }
}

/// How many pids of `pids` the name table `names` knows.
pub open spec fn named_count(pids: Seq<u32>, names: Map<u32, Seq<char>>) -> nat
    decreases pids.len(),
{
    if pids.len() == 0 {
        0
    } else {
        named_count(pids.drop_last(), names) + (if names.dom().contains(pids.last()) {
            1nat
        } else {
            0nat
        })
    }
}

/// The owners of a port, as the monitor reports them: one entry per pid of
/// `pids` that `names` knows, each pid with its own name. Every entry is such a
/// pid with its name, every known pid of `pids` (at whatever position) has an
/// entry, and there are as many entries as there are known pids, so no owner is
/// dropped or reported twice over.
pub proof fn lemma_named_pids(pids: Seq<u32>, names: Map<u32, Seq<char>>)
    ensures
        named_pids(pids, names).len() == named_count(pids, names),
        forall|i: int|
            0 <= i < named_pids(pids, names).len() ==> {
                let e = #[trigger] named_pids(pids, names)[i];
                &&& pids.contains(e.0)
                &&& names.dom().contains(e.0)
                &&& e.1 == names[e.0]
            },
        forall|j: int|
            0 <= j < pids.len() && names.dom().contains(#[trigger] pids[j]) ==> named_pids(
                pids,
                names,
            ).contains((pids[j], names[pids[j]])),
    decreases pids.len(),
{
    if pids.len() > 0 {
        let d = pids.drop_last();
        lemma_named_pids(d, names);
        let before = named_pids(d, names);
        let r = named_pids(pids, names);
        assert forall|i: int| 0 <= i < r.len() implies {
            let e = #[trigger] r[i];
            &&& pids.contains(e.0)
            &&& names.dom().contains(e.0)
            &&& e.1 == names[e.0]
        } by {
            if i < before.len() {
                assert(r[i] == before[i]);
                let q = before[i].0;
                let j = choose|j: int| 0 <= j < d.len() && d[j] == q;
                assert(pids[j] == q);
            } else {
                assert(pids[pids.len() - 1] == pids.last());
            }
        }
        assert forall|j: int|
            0 <= j < pids.len() && names.dom().contains(#[trigger] pids[j]) implies r.contains(
            (pids[j], names[pids[j]]),
        ) by {
            if j < d.len() {
                assert(d[j] == pids[j]);
                let i = choose|i: int| 0 <= i < before.len() && before[i] == (d[j], names[d[j]]);
                assert(r[i] == before[i]);
            } else {
                assert(r[r.len() - 1] == (pids[j], names[pids[j]]));
            }
        }
    }
}

/// The views of a sequence of (pid, name) pairs.
pub open spec fn process_views(v: Seq<(u32, String)>) -> Seq<(u32, Seq<char>)> {
    v.map_values(|e: (u32, String)| (e.0, e.1@))
}

/// The ports of a port listing.
pub open spec fn listing_ports(s: Seq<(u16, Vec<(u32, String)>)>) -> Seq<u16> {
    s.map_values(|e: (u16, Vec<(u32, String)>)| e.0)
}

/// Reads the host's processes once and answers questions about ports.
pub struct PortMonitor {
    system: System,
}

impl PortMonitor {
    /// The names of the processes in the monitor's snapshot, by pid.
    pub closed spec fn names(&self) -> Map<u32, Seq<char>> {
        process_names(self.system)
    }

    /// A monitor over a snapshot of the processes running now.
    pub fn new() -> Self {
        PortMonitor { system: new_system() }
    }

    /// The monitor's snapshot of the processes.
    pub fn system(&self) -> (s: &System)
        ensures
            process_names(*s) == self.names(),
    {
        &self.system
    }

    /// The processes that own listening sockets on `port` according to the
    /// `ss -tlnp` report `ss_report`: for each report line that holds `:PORT`,
    /// `LISTEN` and `pid=` with a readable pid, in the order of the lines, that
    /// pid with its name, when the snapshot holds the process.
    pub fn find_processes_using_port(&self, ss_report: &str, port: u16) -> (procs: Vec<(u32, String)>)
        ensures
            process_views(procs@) == named_pids(
                port_owner_pids(text_lines(ss_report@), port),
                self.names(),
            ),
            procs@.len() == named_count(port_owner_pids(text_lines(ss_report@), port), self.names()),
            forall|j: int|
                0 <= j < port_owner_pids(text_lines(ss_report@), port).len() && self.names().dom().contains(
                    #[trigger] port_owner_pids(text_lines(ss_report@), port)[j],
                ) ==> process_views(procs@).contains(
                    (
                        port_owner_pids(text_lines(ss_report@), port)[j],
                        self.names()[port_owner_pids(text_lines(ss_report@), port)[j]],
                    ),
                ),
            forall|i: int|
                0 <= i < procs@.len() ==> port_owner_pids(text_lines(ss_report@), port).contains(
                    (#[trigger] procs@[i]).0,
                ) && self.names().dom().contains(procs@[i].0) && procs@[i].1@ == self.names()[procs@[i].0],
    {
        proof {
            lemma_named_pids(port_owner_pids(text_lines(ss_report@), port), self.names());
        }
        let pids = ss_port_owner_pids(ss_report, port);
        let mut procs: Vec<(u32, String)> = Vec::new();
        let n = pids.len();
        let mut k: usize = 0;
        assert(pids@.take(0) =~= Seq::<u32>::empty());
        assert(process_views(procs@) =~= Seq::<(u32, Seq<char>)>::empty());
        while k < n
            invariant
                k <= n,
                n == pids@.len(),
                process_views(procs@) == named_pids(pids@.take(k as int), process_names(self.system)),
            decreases n - k,
        {
            let pid = pids[k];
            assert(pids@.take(k + 1).drop_last() =~= pids@.take(k as int));
            let ghost before = process_views(procs@);
            match process_name(&self.system, pid) {
                Some(name) => {
                    procs.push((pid, name));
                    assert(process_views(procs@) =~= before.push((pid, name@)));
                },
                None => {},
            }
            k = k + 1;
        }
        assert(pids@.take(n as int) =~= pids@);
        assert forall|i: int| 0 <= i < procs@.len() implies port_owner_pids(
            text_lines(ss_report@),
            port,
        ).contains((#[trigger] procs@[i]).0) && self.names().dom().contains(procs@[i].0)
            && procs@[i].1@ == self.names()[procs@[i].0] by {
            assert(process_views(procs@)[i] == (procs@[i].0, procs@[i].1@));
        }
        procs
    }

    /// For each listening port of the socket table `table`, in increasing order
    /// and once each, the processes that the report `ss_report` gives for it.
    pub fn port_listing(&self, table: &str, ss_report: &str) -> (listing: Vec<(u16, Vec<(u32, String)>)>)
        ensures
            strictly_increasing(listing_ports(listing@)),
            forall|p: u16|
                listing_ports(listing@).contains(p)
                    <==> is_listening_port(table@, p),
            forall|i: int|
                0 <= i < listing@.len() ==> process_views((#[trigger] listing@[i]).1@) == named_pids(
                    port_owner_pids(text_lines(ss_report@), listing@[i].0),
                    self.names(),
                ),
    {
        let ports = listening_ports(table);
        let mut listing: Vec<(u16, Vec<(u32, String)>)> = Vec::new();
        let n = ports.len();
        let mut k: usize = 0;
        while k < n
            invariant
                k <= n,
                n == ports@.len(),
                listing@.len() == k,
                listing_ports(listing@) == ports@.take(k as int),
                forall|i: int|
                    0 <= i < listing@.len() ==> process_views((#[trigger] listing@[i]).1@)
                        == named_pids(
                        port_owner_pids(text_lines(ss_report@), listing@[i].0),
                        self.names(),
                    ),
            decreases n - k,
        {
            let port = ports[k];
            let procs = self.find_processes_using_port(ss_report, port);
            let ghost before = listing@;
            listing.push((port, procs));
            assert(listing@ == before.push(listing@[k as int]));
            assert forall|i: int| 0 <= i < k + 1 implies listing_ports(listing@)[i] == ports@.take(k + 1)[i] by {
                if i < k {
                    assert(listing@[i] == before[i]);
                    assert(listing_ports(before)[i] == ports@.take(k as int)[i]);
                }
            }
            assert(listing_ports(listing@) =~= ports@.take(k + 1));
            k = k + 1;
        }
        assert(ports@.take(n as int) =~= ports@);
        listing
    }
}

/// The ports that a comma-separated list names: each piece, once stripped of
/// surrounding whitespace, that reads as a decimal 16-bit number, in order.
pub open spec fn port_list(items: Seq<Seq<char>>) -> Seq<u16>
    decreases items.len(),
{
    if items.len() == 0 {
        seq![]
    } else {
        let before = port_list(items.drop_last());
        match parse_unsigned(trim(items.last()), 10, 0xffff) {
            Some(v) => before.push(v as u16),
            None => before,
        }
    }
}

/// Why a list of ports to watch is refused.
#[derive(Debug, Clone, Copy, PartialEq, Eq, Structural)]
pub enum MonitorError {
    /// No piece of the list reads as a port.
    NoValidPorts,
}

/// The ports to watch that the comma-separated list `ports` names; refused when
/// it names none.
pub fn parse_port_list(ports: &str) -> (r: Result<Vec<u16>, MonitorError>)
    ensures
        r matches Ok(v) ==> v@ == port_list(pieces(ports@, ',')) && v@.len() > 0,
        r is Err ==> port_list(pieces(ports@, ',')).len() == 0,
{
    let chars = chars_of(ports);
    let items = pieces_of(&chars, ',');
    let ghost all = pieces(ports@, ',');
    assert(char_rows(items@) == all);
    let mut out: Vec<u16> = Vec::new();
    let n = items.len();
    let mut k: usize = 0;
    assert(all.take(0) =~= Seq::<Seq<char>>::empty());
    while k < n
        invariant
            k <= n,
            n == all.len(),
            char_rows(items@) == all,
            out@ == port_list(all.take(k as int)),
        decreases n - k,
    {
        assert(items@[k as int]@ == all[k as int]);
        assert(all.take(k + 1).drop_last() =~= all.take(k as int));
        let item = trim_chars(&items[k]);
        match parse_unsigned_exec(&item, 10, 0xffff) {
            Some(v) => out.push(v as u16),
            None => {},
        }
        k = k + 1;
    }
    assert(all.take(n as int) =~= all);
    if out.len() == 0 {
        Err(MonitorError::NoValidPorts)
    } else {
        Ok(out)
    }
}

/// The answer `input` agrees to the kill: once stripped of surrounding
/// whitespace it is `y` or `yes`, in any ASCII case.
pub open spec fn is_confirmation(input: Seq<char>) -> bool {
    eq_ignore_ascii_case(trim(input), "y"@) || eq_ignore_ascii_case(trim(input), "yes"@)
}

/// Whether the answer `input` agrees to the kill.
pub fn confirms_kill(input: &str) -> (b: bool)
    ensures
        b == is_confirmation(input@),
{
    let chars = chars_of(input);
    let t = trim_chars(&chars);
    let y = chars_of("y");
    let yes = chars_of("yes");
    eq_ignore_ascii_case_exec(&t, &y) || eq_ignore_ascii_case_exec(&t, &yes)
}

/// The pid that the text `s` (such as a directory name under `/proc`) denotes as
/// a decimal 32-bit number.
pub fn parse_pid(s: &str) -> (r: Option<u32>)
    ensures
        r matches Some(v) ==> parse_unsigned(s@, 10, 0xffff_ffff) == Some(v as nat),
        r is None ==> parse_unsigned(s@, 10, 0xffff_ffff) is None,
{
    let chars = chars_of(s);
    match parse_unsigned_exec(&chars, 10, 0xffff_ffff) {
        Some(v) => Some(v as u32),
        None => None,
    }
}

} // verus!
