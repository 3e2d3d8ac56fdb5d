//! The state of the interactive dashboard: the listening ports on show, the
//! selected row, and what each key press does to them.

use vstd::prelude::*;
use sysinfo::System;
use crate::monitor::PortMonitor;
use crate::ports::{
    lemma_named_owners, lemma_same_elements, lemma_sort_by_port, named_owner_entries, named_owners, port_views, sort_by_port, sorted_by_port,
    sorted_by_port_spec,
};
use crate::system::{new_system, process_names};

pub use crate::ports::PortInfo;
pub use crate::proc_net::parse_port;

verus! {

/// The row below row `i` in a list of `len` rows, going round to the top.
pub open spec fn next_index(i: nat, len: nat) -> nat {
    if len > 0 {
        (i + 1) % len
    } else {
        i
    }
}

/// The row above row `i` in a list of `len` rows, going round to the bottom.
pub open spec fn previous_index(i: nat, len: nat) -> nat {
    if len > 0 {
        if i == 0 {
            (len - 1) as nat
        } else {
            (i - 1) as nat
        }
    } else {
        i
    }
}

proof fn lemma_next_mod(a: int, n: int)
    requires
        n > 0,
        a >= 0,
    ensures
        (a + 1) % n == (if a % n + 1 == n {
            0
        } else {
            a % n + 1
        }),
{
    vstd::arithmetic::div_mod::lemma_fundamental_div_mod(a, n);
    let q = a / n;
    let r = a % n;
    assert(0 <= r < n) by {
        vstd::arithmetic::div_mod::lemma_mod_bound(a, n);
    }
    assert(a == q * n + r) by (nonlinear_arith)
        requires
            a == n * q + r,
    ;
    if r + 1 == n {
        assert(a + 1 == (q + 1) * n + 0) by (nonlinear_arith)
            requires
                a == q * n + r,
                r + 1 == n,
        ;
        vstd::arithmetic::div_mod::lemma_fundamental_div_mod_converse(a + 1, n, q + 1, 0);
    } else {
        vstd::arithmetic::div_mod::lemma_fundamental_div_mod_converse(a + 1, n, q, r + 1);
    }
}

/// On a non-empty list, moving down and moving up undo each other from any row
/// of the list, and both keep the selection on a row.
pub proof fn lemma_navigation_round_trip(i: nat, len: nat)
    requires
        len > 0,
        i < len,
    ensures
        previous_index(next_index(i, len), len) == i,
        next_index(previous_index(i, len), len) == i,
        next_index(i, len) < len,
        previous_index(i, len) < len,
{
    lemma_next_mod(i as int, len as int);
    vstd::arithmetic::div_mod::lemma_small_mod(i, len);
    let p = previous_index(i, len);
    lemma_next_mod(p as int, len as int);
    vstd::arithmetic::div_mod::lemma_small_mod(p, len);
}

/// A key press on the dashboard.
#[derive(Debug, Clone, Copy, PartialEq, Eq, Structural)]
pub enum Key {
    Char(char),
    Esc,
    Up,
    Down,
    Delete,
    Other,
}

/// What the dashboard's loop does after a key press.
#[derive(Debug, Clone, Copy, PartialEq, Eq, Structural)]
pub enum KeyAction {
    /// Leave the dashboard.
    Quit,
    /// Kill the processes on this port, then read the ports again.
    Kill(u16),
    /// Read the ports again.
    Refresh,
    /// Nothing beyond what the key did to the selection.
    Continue,
}

/// The dashboard's state.
pub struct App {
    ports: Vec<PortInfo>,
    selected_index: usize,
    running: bool,
    monitor: PortMonitor,
}

impl App {
    /// The ports on show.
    pub closed spec fn entries(&self) -> Seq<(u16, Seq<char>, u32)> {
        port_views(self.ports@)
    }

    /// The selected row (it may lie past the last row after the list shrank).
    pub closed spec fn selected(&self) -> nat {
        self.selected_index as nat
    }

    /// The dashboard has not been asked to quit.
    pub closed spec fn running(&self) -> bool {
        self.running
    }

    /// An empty dashboard with the first row selected.
    pub fn new() -> (app: Self)
        ensures
            app.entries() == Seq::<(u16, Seq<char>, u32)>::empty(),
            app.selected() == 0,
            app.running(),
    {
        let app = App { ports: Vec::new(), selected_index: 0, running: true, monitor: PortMonitor::new() };
        assert(app.entries() =~= Seq::<(u16, Seq<char>, u32)>::empty());
        app
    }

    /// Moves the selection one row down, from the last row to the first.
    pub fn next(&mut self)
        ensures
            final(self).entries() == old(self).entries(),
            final(self).running() == old(self).running(),
            final(self).port_monitor() == old(self).port_monitor(),
            final(self).selected() == next_index(old(self).selected(), old(self).entries().len()),
    {
        let len = self.ports.len();
        if len > 0 {
            let i = self.selected_index % len;
            proof {
                lemma_next_mod(self.selected_index as int, len as int);
            }
            self.selected_index = if i + 1 == len {
                0
            } else {
                i + 1
            };
        }
    }

    /// Moves the selection one row up, from the first row to the last.
    pub fn previous(&mut self)
        ensures
            final(self).entries() == old(self).entries(),
            final(self).running() == old(self).running(),
            final(self).port_monitor() == old(self).port_monitor(),
            final(self).selected() == previous_index(old(self).selected(), old(self).entries().len()),
    {
        let len = self.ports.len();
        if len > 0 {
            self.selected_index = if self.selected_index == 0 {
                len - 1
            } else {
                self.selected_index - 1
            };
        }
    }

    /// Shows the listening ports whose owners `owners` (port, pid) names, as
    /// far as a snapshot of the processes taken by this call holds those pids,
    /// sorted by port with equal ports in the order of `owners`, and returns that
    /// snapshot. The selection is kept.
    pub fn refresh_ports(&mut self, owners: &Vec<(u16, u32)>) -> (snapshot: System)
        ensures
            exists|snapshot: System|
                final(self).entries() == sort_by_port(
                    named_owners(owners@, #[trigger] process_names(snapshot)),
                ),
            final(self).entries() == sort_by_port(named_owners(owners@, process_names(snapshot))),
            forall|j: int|
                0 <= j < owners@.len() && process_names(snapshot).dom().contains(
                    (#[trigger] owners@[j]).1,
                ) ==> final(self).entries().contains(
                    (owners@[j].0, process_names(snapshot)[owners@[j].1], owners@[j].1),
                ),
            forall|i: int|
                0 <= i < final(self).entries().len() ==> {
                    let e = #[trigger] final(self).entries()[i];
                    &&& owners@.contains((e.0, e.2))
                    &&& process_names(snapshot).dom().contains(e.2)
                    &&& e.1 == process_names(snapshot)[e.2]
                },
            sorted_by_port_spec(final(self).entries()),
            final(self).selected() == old(self).selected(),
            final(self).running() == old(self).running(),
            final(self).port_monitor() == old(self).port_monitor(),
    {
        let system = new_system();
        let entries = named_owner_entries(owners, &system);
        self.ports = sorted_by_port(entries);
        proof {
            let named = named_owners(owners@, process_names(system));
            lemma_sort_by_port(named);
            lemma_named_owners(owners@, process_names(system));
            lemma_same_elements(named, sort_by_port(named));
            let sorted = sort_by_port(named);
            assert forall|i: int| 0 <= i < sorted.len() implies {
                let e = #[trigger] sorted[i];
                &&& owners@.contains((e.0, e.2))
                &&& process_names(system).dom().contains(e.2)
                &&& e.1 == process_names(system)[e.2]
            } by {
                assert(sorted.contains(sorted[i]));
                let k = choose|k: int| 0 <= k < named.len() && named[k] == sorted[i];
                assert(named[k] == sorted[i]);
            }
        }
        system
    }

    /// The port on the selected row, if the selection lies on a row.
    pub fn selected_port(&self) -> (r: Option<u16>)
        ensures
            r == (if self.selected() < self.entries().len() {
                Some(self.entries()[self.selected() as int].0)
            } else {
                None
            }),
    {
        if self.selected_index < self.ports.len() {
            Some(self.ports[self.selected_index].port)
        } else {
            None
        }
    }

    /// Applies a key press: `q` or Esc stops the dashboard, Down or `j` and Up or
    /// `k` move the selection, `d` or Delete asks to kill the processes on the
    /// selected port (when the selection lies on a row), `r` asks for a refresh.
    pub fn handle_key(&mut self, key: Key) -> (action: KeyAction)
        ensures
            final(self).entries() == old(self).entries(),
            final(self).port_monitor() == old(self).port_monitor(),
            (key == Key::Char('q') || key == Key::Esc) ==> action == KeyAction::Quit
                && !final(self).running() && final(self).selected() == old(self).selected(),
            (key == Key::Down || key == Key::Char('j')) ==> action == KeyAction::Continue
                && final(self).running() == old(self).running() && final(self).selected()
                == next_index(old(self).selected(), old(self).entries().len()),
            (key == Key::Up || key == Key::Char('k')) ==> action == KeyAction::Continue
                && final(self).running() == old(self).running() && final(self).selected()
                == previous_index(old(self).selected(), old(self).entries().len()),
            (key == Key::Char('d') || key == Key::Delete) ==> final(self).running() == old(
                self,
            ).running() && final(self).selected() == old(self).selected() && action == (if old(
                self,
            ).selected() < old(self).entries().len() {
                KeyAction::Kill(old(self).entries()[old(self).selected() as int].0)
            } else {
                KeyAction::Continue
            }),
            key == Key::Char('r') ==> action == KeyAction::Refresh && final(self).running() == old(
                self,
            ).running() && final(self).selected() == old(self).selected(),
            !(key == Key::Char('q') || key == Key::Esc || key == Key::Down || key == Key::Char('j')
                || key == Key::Up || key == Key::Char('k') || key == Key::Char('d') || key
                == Key::Delete || key == Key::Char('r')) ==> action == KeyAction::Continue
                && final(self).running() == old(self).running() && final(self).selected() == old(
                self,
            ).selected(),
    {
        match key {
            Key::Char('q') | Key::Esc => {
                self.running = false;
                KeyAction::Quit
            },
            Key::Down | Key::Char('j') => {
                self.next();
                KeyAction::Continue
            },
            Key::Up | Key::Char('k') => {
                self.previous();
                KeyAction::Continue
            },
            Key::Char('d') | Key::Delete => match self.selected_port() {
                Some(port) => KeyAction::Kill(port),
                None => KeyAction::Continue,
            },
            Key::Char('r') => KeyAction::Refresh,
            _ => KeyAction::Continue,
        }
    }

    /// The ports on show.
    pub fn ports(&self) -> (ports: &Vec<PortInfo>)
        ensures
            port_views(ports@) == self.entries(),
    {
        &self.ports
    }

    /// The selected row.
    pub fn selected_index(&self) -> (i: usize)
        ensures
            i == self.selected(),
    {
        self.selected_index
    }

    /// Whether the dashboard still runs.
    pub fn is_running(&self) -> (b: bool)
        ensures
            b == self.running(),
    {
        self.running
    }

    /// The monitor that kills processes for the dashboard.
    pub closed spec fn port_monitor(&self) -> PortMonitor {
        self.monitor
    }

    /// The monitor that kills processes for the dashboard.
    pub fn monitor(&self) -> (m: &PortMonitor)
        ensures
            *m == self.port_monitor(),
    {
        &self.monitor
    }
}

} // verus!
