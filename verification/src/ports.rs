//! Listening ports together with the processes that own them.

use vstd::prelude::*;
use sysinfo::System;
use crate::system::{process_name, process_names};

verus! {

/// A listening port and the process that owns it.
#[derive(Debug, Clone)]
pub struct PortInfo {
    pub port: u16,
    pub process_name: String,
    pub pid: u32,
}

impl View for PortInfo {
    type V = (u16, Seq<char>, u32);

    open spec fn view(&self) -> (u16, Seq<char>, u32) {
        (self.port, self.process_name@, self.pid)
    }
}

/// The views of a sequence of entries.
pub open spec fn port_views(v: Seq<PortInfo>) -> Seq<(u16, Seq<char>, u32)> {
    v.map_values(|p: PortInfo| p@)
}

/// The (port, pid) pairs of `owners` whose pid `names` knows, with that name,
/// in the order of `owners`.
pub open spec fn named_owners(owners: Seq<(u16, u32)>, names: Map<u32, Seq<char>>) -> Seq<
    (u16, Seq<char>, u32),
>
    decreases owners.len(),
{
    if owners.len() == 0 {
        seq![]
    } else {
        let before = named_owners(owners.drop_last(), names);
        let (port, pid) = owners.last();
        if names.dom().contains(pid) {
            before.push((port, names[pid], pid))
        } else {
            before
        }
    }
}

/// `s` with `x` placed after every entry whose port is at most `x`'s and before
/// the entries behind them with a larger port.
pub open spec fn insert_by_port(x: (u16, Seq<char>, u32), s: Seq<(u16, Seq<char>, u32)>) -> Seq<
    (u16, Seq<char>, u32),
>
    decreases s.len(),
{
    if s.len() == 0 {
        seq![x]
    } else if s.last().0 <= x.0 {
        s.push(x)
    } else {
        insert_by_port(x, s.drop_last()).push(s.last())
    }
}

/// `s` in increasing order of port, entries with equal ports keeping their
/// order (a stable sort by port).
pub open spec fn sort_by_port(s: Seq<(u16, Seq<char>, u32)>) -> Seq<(u16, Seq<char>, u32)>
    decreases s.len(),
{
    if s.len() == 0 {
        seq![]
    } else {
        insert_by_port(s.last(), sort_by_port(s.drop_last()))
    }
}

/// Inserting at the place where the ports behind are all larger and the one
/// before is not is what `insert_by_port` does.
proof fn lemma_insert_by_port_at(x: (u16, Seq<char>, u32), s: Seq<(u16, Seq<char>, u32)>, j: int)
    requires
        0 <= j <= s.len(),
        forall|t: int| j <= t < s.len() ==> s[t].0 > x.0,
        j > 0 ==> s[j - 1].0 <= x.0,
    ensures
        insert_by_port(x, s) == s.insert(j, x),
    decreases s.len(),
{
    if s.len() == 0 {
        assert(s.insert(j, x) =~= seq![x]);
    } else if j == s.len() {
        assert(s.insert(j, x) =~= s.push(x));
    } else {
        lemma_insert_by_port_at(x, s.drop_last(), j);
        assert(s.drop_last().insert(j, x).push(s.last()) =~= s.insert(j, x));
    }
}

/// The entries for the (port, pid) pairs of `owners` whose process `system`
/// holds, named after it, in the order of `owners`.
pub fn named_owner_entries(owners: &Vec<(u16, u32)>, system: &System) -> (entries: Vec<PortInfo>)
    ensures
        port_views(entries@) == named_owners(owners@, process_names(*system)),
{
    let mut entries: Vec<PortInfo> = Vec::new();
    let n = owners.len();
    let mut k: usize = 0;
    assert(owners@.take(0) =~= Seq::<(u16, u32)>::empty());
    assert(port_views(entries@) =~= Seq::<(u16, Seq<char>, u32)>::empty());
    while k < n
        invariant
            k <= n,
            n == owners@.len(),
            port_views(entries@) == named_owners(owners@.take(k as int), process_names(*system)),
        decreases n - k,
    {
        let (port, pid) = owners[k];
        assert(owners@.take(k + 1).drop_last() =~= owners@.take(k as int));
        assert(owners@.take(k + 1).last() == (port, pid));
        let ghost before = port_views(entries@);
        match process_name(system, pid) {
            Some(name) => {
                let entry = PortInfo { port, process_name: name, pid };
                entries.push(entry);
                assert(port_views(entries@) =~= before.push(entry@));
            },
            None => {},
        }
        k = k + 1;
    }
    assert(owners@.take(n as int) =~= owners@);
    entries
}

/// `entries` sorted by port, entries with equal ports keeping their order.
pub fn sorted_by_port(entries: Vec<PortInfo>) -> (sorted: Vec<PortInfo>)
    ensures
        port_views(sorted@) == sort_by_port(port_views(entries@)),
{
    let ghost input = port_views(entries@);
    let mut sorted: Vec<PortInfo> = Vec::new();
    let mut rest = entries;
    let ghost all = rest@;
    let ghost n = all.len();
    assert(all.skip(0) =~= all);
    assert(input.take(0) =~= Seq::<(u16, Seq<char>, u32)>::empty());
    assert(port_views(sorted@) =~= Seq::<(u16, Seq<char>, u32)>::empty());
    while rest.len() > 0
        invariant
            rest@.len() <= n,
            n == all.len(),
            input == port_views(all),
            rest@ == all.skip(n - rest@.len()),
            port_views(sorted@) == sort_by_port(input.take(n - rest@.len())),
        decreases rest@.len(),
    {
        let ghost done = n - rest@.len();
        let x = rest.remove(0);
        assert(x == all[done]);
        assert(rest@ =~= all.skip(done + 1));
        let mut j = sorted.len();
        while j > 0 && sorted[j - 1].port > x.port
            invariant
                j <= sorted@.len(),
                forall|t: int| j <= t < sorted@.len() ==> sorted@[t].port > x.port,
            decreases j,
        {
            j = j - 1;
        }
        let ghost before = port_views(sorted@);
        proof {
            lemma_insert_by_port_at(x@, before, j as int);
            assert(input.take(done + 1).drop_last() =~= input.take(done));
            assert(input.take(done + 1).last() == x@);
        }
        sorted.insert(j, x);
        assert(port_views(sorted@) =~= before.insert(j as int, all[done]@));
    }
    assert(input.take(n as int) =~= input);
    sorted
}

} // verus!

verus! {

/// Each entry's port is at most that of every entry after it.
pub open spec fn sorted_by_port_spec(s: Seq<(u16, Seq<char>, u32)>) -> bool {
    forall|i: int, j: int| 0 <= i < j < s.len() ==> s[i].0 <= s[j].0
}

proof fn lemma_insert_by_port(x: (u16, Seq<char>, u32), s: Seq<(u16, Seq<char>, u32)>)
    requires
        sorted_by_port_spec(s),
    ensures
        sorted_by_port_spec(insert_by_port(x, s)),
        insert_by_port(x, s).to_multiset() == s.to_multiset().insert(x),
        forall|i: int|
            0 <= i < insert_by_port(x, s).len() ==> #[trigger] insert_by_port(x, s)[i] == x
                || s.contains(insert_by_port(x, s)[i]),
    decreases s.len(),
{
    broadcast use vstd::seq_lib::to_multiset_build;

    let r = insert_by_port(x, s);
    if s.len() == 0 {
        assert(seq![x] =~= s.push(x));
    } else if s.last().0 <= x.0 {
        assert forall|i: int| 0 <= i < r.len() implies r[i] == x || s.contains(r[i]) by {
            if i < s.len() {
                assert(r[i] == s[i]);
            }
        }
    } else {
        let d = s.drop_last();
        lemma_insert_by_port(x, d);
        let r0 = insert_by_port(x, d);
        assert(s =~= d.push(s.last()));
        assert forall|i: int| 0 <= i < r.len() implies r[i] == x || s.contains(r[i]) by {
            if i < r0.len() {
                assert(r[i] == r0[i]);
                if r0[i] != x {
                    let j = choose|j: int| 0 <= j < d.len() && d[j] == r0[i];
                    assert(s[j] == r0[i]);
                }
            } else {
                assert(r[i] == s[s.len() - 1]);
            }
        }
        assert forall|a: int, b: int| 0 <= a < b < r.len() implies r[a].0 <= r[b].0 by {
            if b == r.len() - 1 {
                assert(r[b] == s.last());
                assert(r[a] == r0[a]);
                if r0[a] != x {
                    let j = choose|j: int| 0 <= j < d.len() && d[j] == r0[a];
                    assert(s[j] == r0[a]);
                }
            } else {
                assert(r[a] == r0[a]);
                assert(r[b] == r0[b]);
            }
        }
        assert(r.to_multiset() == r0.to_multiset().insert(s.last()));
        assert(d.to_multiset().insert(x).insert(s.last()) =~= d.to_multiset().insert(s.last()).insert(
            x,
        )) by {
            broadcast use vstd::multiset::group_multiset_axioms;
        }
    }
}

/// The entries of `s` whose port is `q`, in their order.
pub open spec fn with_port(s: Seq<(u16, Seq<char>, u32)>, q: u16) -> Seq<(u16, Seq<char>, u32)>
    decreases s.len(),
{
    if s.len() == 0 {
        seq![]
    } else if s.last().0 == q {
        with_port(s.drop_last(), q).push(s.last())
    } else {
        with_port(s.drop_last(), q)
    }
}

proof fn lemma_insert_with_port(x: (u16, Seq<char>, u32), s: Seq<(u16, Seq<char>, u32)>, q: u16)
    ensures
        with_port(insert_by_port(x, s), q) == (if x.0 == q {
            with_port(s, q).push(x)
        } else {
            with_port(s, q)
        }),
    decreases s.len(),
{
    let r = insert_by_port(x, s);
    if s.len() == 0 {
        assert(r == seq![x]);
        assert(r.drop_last() =~= s);
        assert(r.last() == x);
    } else if s.last().0 <= x.0 {
        assert(r == s.push(x));
        assert(r.drop_last() =~= s);
        assert(r.last() == x);
    } else {
        let d = s.drop_last();
        lemma_insert_with_port(x, d, q);
        let r0 = insert_by_port(x, d);
        assert(r == r0.push(s.last()));
        assert(r.drop_last() =~= r0);
        assert(r.last() == s.last());
    }
}

/// Sorting by port gives entries in increasing order of port, the same entries
/// as before, as many times each, and keeps the order of the entries that share
/// a port.
pub proof fn lemma_sort_by_port(s: Seq<(u16, Seq<char>, u32)>)
    ensures
        sorted_by_port_spec(sort_by_port(s)),
        sort_by_port(s).to_multiset() == s.to_multiset(),
        forall|q: u16| #[trigger] with_port(sort_by_port(s), q) == with_port(s, q),
    decreases s.len(),
{
    broadcast use vstd::seq_lib::to_multiset_build;

    if s.len() == 0 {
        assert(sort_by_port(s) =~= s);
    } else {
        let d = s.drop_last();
        lemma_sort_by_port(d);
        lemma_insert_by_port(s.last(), sort_by_port(d));
        assert(s =~= d.push(s.last()));
        assert forall|q: u16| #[trigger] with_port(sort_by_port(s), q) == with_port(s, q) by {
            lemma_insert_with_port(s.last(), sort_by_port(d), q);
        }
    }
}

} // verus!

verus! {

/// Naming owners keeps exactly the owners whose pid the table knows: every entry
/// is an owner (port, pid) of `owners` with the pid's name, and every owner whose
/// pid is known has its entry.
pub proof fn lemma_named_owners(owners: Seq<(u16, u32)>, names: Map<u32, Seq<char>>)
    ensures
        forall|i: int|
            0 <= i < named_owners(owners, names).len() ==> {
                let e = #[trigger] named_owners(owners, names)[i];
                &&& owners.contains((e.0, e.2))
                &&& names.dom().contains(e.2)
                &&& e.1 == names[e.2]
            },
        forall|j: int|
            0 <= j < owners.len() && names.dom().contains((#[trigger] owners[j]).1) ==> named_owners(
                owners,
                names,
            ).contains((owners[j].0, names[owners[j].1], owners[j].1)),
    decreases owners.len(),
{
    if owners.len() > 0 {
        let d = owners.drop_last();
        lemma_named_owners(d, names);
        let before = named_owners(d, names);
        let r = named_owners(owners, names);
        assert forall|i: int| 0 <= i < r.len() implies {
            let e = #[trigger] r[i];
            &&& owners.contains((e.0, e.2))
            &&& names.dom().contains(e.2)
            &&& e.1 == names[e.2]
        } by {
            if i < before.len() {
                assert(r[i] == before[i]);
                let e = before[i];
                let j = choose|j: int| 0 <= j < d.len() && d[j] == (e.0, e.2);
                assert(owners[j] == (e.0, e.2));
            } else {
                assert(owners[owners.len() - 1] == owners.last());
            }
        }
        assert forall|j: int|
            0 <= j < owners.len() && names.dom().contains((#[trigger] owners[j]).1) implies r.contains(
            (owners[j].0, names[owners[j].1], owners[j].1),
        ) by {
            if j < d.len() {
                assert(d[j] == owners[j]);
                let i = choose|i: int|
                    0 <= i < before.len() && before[i] == (d[j].0, names[d[j].1], d[j].1);
                assert(r[i] == before[i]);
            } else {
                assert(r[r.len() - 1] == (owners[j].0, names[owners[j].1], owners[j].1));
            }
        }
    }
}

} // verus!

verus! {

/// Two sequences with the same elements, as many times each, hold the same
/// elements.
pub proof fn lemma_same_elements(a: Seq<(u16, Seq<char>, u32)>, b: Seq<(u16, Seq<char>, u32)>)
    requires
        a.to_multiset() == b.to_multiset(),
    ensures
        forall|x: (u16, Seq<char>, u32)| a.contains(x) <==> b.contains(x),
{
    broadcast use vstd::seq_lib::to_multiset_contains;

    assert forall|x: (u16, Seq<char>, u32)| a.contains(x) <==> b.contains(x) by {
        assert(a.to_multiset().count(x) == b.to_multiset().count(x));
    }
}

} // verus!
