//! Reports of `ss -tlnp`: one line per listening TCP socket, holding the local
//! address as `ADDR:PORT` (decimal port) and, when the owner is known, a process
//! list such as `users:(("nc",pid=26629,fd=3))`.

use vstd::prelude::*;
use crate::numbers::{decimal, parse_unsigned, parse_unsigned_exec, push_decimal};
use crate::proc_net::{lemma_insert_elements, lemma_insert_increasing, strictly_increasing};
use crate::text::{
    char_rows, chars_of, contains, contains_exec, fields, fields_of, find, first_match, lines_of,
    pieces, pieces_of, slice_chars, text_lines,
};

verus! {

/// The text of `line` between its first `pid=` and the next one (or the end).
pub open spec fn after_first_pid(line: Seq<char>) -> Seq<char> {
    let i = first_match(line, "pid="@)->Some_0;
    let after = line.skip(i + "pid="@.len());
    match first_match(after, "pid="@) {
        Some(j) => after.take(j),
        None => after,
    }
}

/// The pid that `line` names after its first `pid=`: the decimal number that
/// runs up to the next `,`, as `line.split("pid=").nth(1)` and
/// `split(',').next()` cut it.
pub open spec fn ss_line_pid(line: Seq<char>) -> Option<u32> {
    if first_match(line, "pid="@) is Some {
        match parse_unsigned(pieces(after_first_pid(line), ',')[0], 10, 0xffff_ffff) {
            Some(v) => Some(v as u32),
            None => None,
        }
    } else {
        None
    }
}

/// The pid that `line` names after its first `pid=`.
pub fn ss_line_pid_exec(line: &Vec<char>) -> (r: Option<u32>)
    ensures
        r == ss_line_pid(line@),
{
    let pat = chars_of("pid=");
    match find(line, &pat) {
        Some(i) => {
            let n = line.len();
            let m = pat.len();
            let after = slice_chars(line, i + m, n);
            assert(after@ =~= line@.skip(i + "pid="@.len()));
            let seg = match find(&after, &pat) {
                Some(j) => slice_chars(&after, 0, j),
                None => after,
            };
            assert(seg@ =~= after_first_pid(line@));
            let parts = pieces_of(&seg, ',');
            assert(parts@.len() > 0) by {
                crate::text::lemma_pieces_nonempty(seg@, ',');
            }
            assert(parts@[0]@ == pieces(seg@, ',')[0]);
            match parse_unsigned_exec(&parts[0], 10, 0xffff_ffff) {
                Some(v) => Some(v as u32),
                None => None,
            }
        },
        None => None,
    }
}

/// The port of the local address of a report line: its fourth field (after the
/// state and the two queue sizes) is the local address `ADDR:PORT`, and the text
/// after its last `:` is a decimal number of at most 16 bits.
pub open spec fn local_port(line: Seq<char>) -> Option<u16> {
    let f = fields(line);
    if f.len() > 3 {
        match parse_unsigned(pieces(f[3], ':').last(), 10, 0xffff) {
            Some(v) => Some(v as u16),
            None => None,
        }
    } else {
        None
    }
}

/// The port of the local address of the report line `line`.
pub fn local_port_exec(line: &Vec<char>) -> (r: Option<u16>)
    ensures
        r == local_port(line@),
{
    let f = fields_of(line);
    assert(char_rows(f@) == fields(line@));
    if f.len() > 3 {
        assert(f@[3]@ == fields(line@)[3]);
        let parts = pieces_of(&f[3], ':');
        proof {
            crate::text::lemma_pieces_nonempty(f@[3]@, ':');
        }
        let last = parts.len() - 1;
        assert(parts@[last as int]@ == pieces(f@[3]@, ':').last());
        match parse_unsigned_exec(&parts[last], 10, 0xffff) {
            Some(v) => Some(v as u16),
            None => None,
        }
    } else {
        None
    }
}

/// The pid of the process that owns a listening socket on `port` according to
/// the report line `line`: the line holds `LISTEN` and `pid=`, and the port of its
/// local address is `port`.
pub open spec fn ss_line_owner(line: Seq<char>, port: u16) -> Option<u32> {
    if contains(line, "LISTEN"@) && contains(line, "pid="@) && local_port(line) == Some(port) {
        ss_line_pid(line)
    } else {
        None
    }
}

/// The owner pids of listening sockets on `port` that the report lines `lines`
/// name, in their order.
pub open spec fn port_owner_pids(lines: Seq<Seq<char>>, port: u16) -> Seq<u32>
    decreases lines.len(),
{
    if lines.len() == 0 {
        seq![]
    } else {
        let before = port_owner_pids(lines.drop_last(), port);
        match ss_line_owner(lines.last(), port) {
            Some(pid) => before.push(pid),
            None => before,
        }
    }
}

/// The owner pids of listening sockets on `port` in the report `report`, one
/// per matching line, in the order of the lines.
pub fn ss_port_owner_pids(report: &str, port: u16) -> (pids: Vec<u32>)
    ensures
        pids@ == port_owner_pids(text_lines(report@), port),
{
    let chars = chars_of(report);
    let lines = lines_of(&chars);
    let ghost rows = text_lines(report@);
    let listen = chars_of("LISTEN");
    let pid_pat = chars_of("pid=");
    let mut pids: Vec<u32> = Vec::new();
    let n = lines.len();
    let mut k: usize = 0;
    assert(rows.take(0) =~= Seq::<Seq<char>>::empty());
    while k < n
        invariant
            k <= n,
            n == rows.len(),
            rows == char_rows(lines@),
            listen@ == "LISTEN"@,
            pid_pat@ == "pid="@,
            pids@ == port_owner_pids(rows.take(k as int), port),
        decreases n - k,
    {
        let line = &lines[k];
        assert(line@ == rows[k as int]);
        assert(rows.take(k + 1).drop_last() =~= rows.take(k as int));
        if contains_exec(line, &listen) && contains_exec(line, &pid_pat) && local_port_exec(line)
            == Some(port) {
            match ss_line_pid_exec(line) {
                Some(pid) => pids.push(pid),
                None => {},
            }
        }
        k = k + 1;
    }
    assert(rows.take(n as int) =~= rows);
    pids
}

} // verus!

verus! {

/// The port of an address field as the desktop view reads it: the field holds a
/// `:` and the text after its last `:` is a decimal number of at most 16 bits.
pub open spec fn address_port(f: Seq<char>) -> Option<u16> {
    if f.contains(':') {
        match parse_unsigned(pieces(f, ':').last(), 10, 0xffff) {
            Some(v) => Some(v as u16),
            None => None,
        }
    } else {
        None
    }
}

/// The port of the first field of `fs` that `address_port` reads.
pub open spec fn first_address_port(fs: Seq<Seq<char>>) -> Option<u16>
    decreases fs.len(),
{
    if fs.len() == 0 {
        None
    } else {
        match address_port(fs[0]) {
            Some(p) => Some(p),
            None => first_address_port(fs.drop_first()),
        }
    }
}

/// The (port, pid) pair that a report line gives the desktop view: a line with
/// `LISTEN` and `pid=`, the port of its first field that ends in `:PORT` (the
/// local address, whatever interface it names; a peer column such as `0.0.0.0:*`
/// has no port), and its pid.
pub open spec fn listen_line_entry(line: Seq<char>) -> Option<(u16, u32)> {
    if contains(line, "LISTEN"@) && contains(line, "pid="@) {
        match first_address_port(fields(line)) {
            Some(port) => match ss_line_pid(line) {
                Some(pid) => Some((port, pid)),
                None => None,
            },
            None => None,
        }
    } else {
        None
    }
}

/// The pid that the report lines `lines` give each port: the last line that
/// names the port wins.
pub open spec fn port_pid_map(lines: Seq<Seq<char>>) -> Map<u16, u32>
    decreases lines.len(),
{
    if lines.len() == 0 {
        Map::empty()
    } else {
        let before = port_pid_map(lines.drop_last());
        match listen_line_entry(lines.last()) {
            Some((port, pid)) => before.insert(port, pid),
            None => before,
        }
    }
}

/// The ports of a sequence of (port, pid) pairs.
pub open spec fn pair_ports(s: Seq<(u16, u32)>) -> Seq<u16> {
    s.map_values(|e: (u16, u32)| e.0)
}

/// `s` lists the pairs of `m` once each, in increasing order of port.
pub open spec fn lists_map(s: Seq<(u16, u32)>, m: Map<u16, u32>) -> bool {
    &&& strictly_increasing(pair_ports(s))
    &&& forall|p: u16| m.dom().contains(p) <==> pair_ports(s).contains(p)
    &&& forall|i: int| 0 <= i < s.len() ==> m[(#[trigger] s[i]).0] == s[i].1
}

/// Sets the pid of `port` in the list `v` of the map `m`.
fn set_port_pid(v: &mut Vec<(u16, u32)>, port: u16, pid: u32, Ghost(m): Ghost<Map<u16, u32>>)
    requires
        lists_map(old(v)@, m),
    ensures
        lists_map(final(v)@, m.insert(port, pid)),
{
    let n = v.len();
    let mut i: usize = 0;
    while i < n && v[i].0 < port
        invariant
            i <= n,
            n == v@.len(),
            v@ == old(v)@,
            forall|j: int| 0 <= j < i ==> v@[j].0 < port,
        decreases n - i,
    {
        i = i + 1;
    }
    let ghost before = v@;
    let ghost m2 = m.insert(port, pid);
    assert(pair_ports(before).len() == before.len());
    if i < n && v[i].0 == port {
        v.set(i, (port, pid));
        assert(pair_ports(v@) =~= pair_ports(before));
        assert forall|j: int| 0 <= j < v@.len() implies m2[(#[trigger] v@[j]).0] == v@[j].1 by {
            if j != i {
                assert(v@[j] == before[j]);
                assert(pair_ports(before)[j] != pair_ports(before)[i as int]);
            }
        }
        assert forall|p: u16| m2.dom().contains(p) <==> pair_ports(v@).contains(p) by {
            if p == port {
                assert(pair_ports(v@)[i as int] == p);
            }
        }
        assert(strictly_increasing(pair_ports(v@)));
    } else {
        proof {
            lemma_insert_elements(pair_ports(before), i as int, port);
            lemma_insert_increasing(pair_ports(before), i as int, port);
        }
        v.insert(i, (port, pid));
        assert(pair_ports(v@) =~= pair_ports(before).insert(i as int, port));
        assert forall|p: u16| m2.dom().contains(p) <==> pair_ports(v@).contains(p) by {
            assert(m.dom().contains(p) <==> pair_ports(before).contains(p));
            assert(pair_ports(v@).contains(p) <==> (pair_ports(before).contains(p) || p == port));
            if p != port {
                assert(m2.dom().contains(p) == m.dom().contains(p));
            }
        }
        assert(strictly_increasing(pair_ports(v@)));
        assert forall|j: int| 0 <= j < v@.len() implies m2[(#[trigger] v@[j]).0] == v@[j].1 by {
            if j < i {
                assert(v@[j] == before[j]);
                assert(v@[j].0 != port);
            } else if j > i {
                assert(v@[j] == before[j - 1]);
                assert(pair_ports(before)[i as int] > port);
                assert(pair_ports(before)[j - 1] != port);
            }
        }
    }
}

fn has_char(v: &Vec<char>, c: char) -> (b: bool)
    ensures
        b == v@.contains(c),
{
    let n = v.len();
    let mut i: usize = 0;
    while i < n
        invariant
            i <= n,
            n == v@.len(),
            forall|j: int| 0 <= j < i ==> v@[j] != c,
        decreases n - i,
    {
        if v[i] == c {
            return true;
        }
        i = i + 1;
    }
    false
}

/// The port that `address_port` reads from the field `f`.
pub fn address_port_exec(f: &Vec<char>) -> (r: Option<u16>)
    ensures
        r == address_port(f@),
{
    if has_char(f, ':') {
        let parts = pieces_of(f, ':');
        proof {
            crate::text::lemma_pieces_nonempty(f@, ':');
        }
        let last = parts.len() - 1;
        assert(parts@[last as int]@ == pieces(f@, ':').last());
        match parse_unsigned_exec(&parts[last], 10, 0xffff) {
            Some(v) => Some(v as u16),
            None => None,
        }
    } else {
        None
    }
}

/// The (port, pid) pair that the report line `line` gives the desktop view.
pub fn listen_line_entry_exec(line: &Vec<char>) -> (r: Option<(u16, u32)>)
    ensures
        r == listen_line_entry(line@),
{
    let listen = chars_of("LISTEN");
    let pid_pat = chars_of("pid=");
    if !(contains_exec(line, &listen) && contains_exec(line, &pid_pat)) {
        return None;
    }
    let fs = fields_of(line);
    let ghost all = fields(line@);
    assert(char_rows(fs@) == all);
    let n = fs.len();
    let mut k: usize = 0;
    assert(all.skip(0) =~= all);
    while k < n
        invariant
            k <= n,
            n == all.len(),
            all == fields(line@),
            contains(line@, "LISTEN"@),
            contains(line@, "pid="@),
            char_rows(fs@) == all,
            first_address_port(all) == first_address_port(all.skip(k as int)),
        decreases n - k,
    {
        assert(fs@[k as int]@ == all.skip(k as int)[0]);
        match address_port_exec(&fs[k]) {
            Some(port) => {
                assert(all.skip(k as int).len() > 0);
                assert(first_address_port(all.skip(k as int)) == Some(port));
                let r = match ss_line_pid_exec(line) {
                    Some(pid) => Some((port, pid)),
                    None => None,
                };
                return r;
            },
            None => {
                assert(all.skip(k as int).drop_first() =~= all.skip(k + 1));
            },
        }
        k = k + 1;
    }
    assert(all.skip(n as int) =~= Seq::<Seq<char>>::empty());
    None
}

/// The ports that the report `report` names with their owner pids, each once and
/// in increasing order, the last line that names a port giving its pid.
pub fn ss_port_pids(report: &str) -> (pairs: Vec<(u16, u32)>)
    ensures
        lists_map(pairs@, port_pid_map(text_lines(report@))),
{
    let chars = chars_of(report);
    let lines = lines_of(&chars);
    let ghost rows = text_lines(report@);
    let mut pairs: Vec<(u16, u32)> = Vec::new();
    let n = lines.len();
    let mut k: usize = 0;
    assert(rows.take(0) =~= Seq::<Seq<char>>::empty());
    assert(pair_ports(pairs@) =~= Seq::<u16>::empty());
    while k < n
        invariant
            k <= n,
            n == rows.len(),
            rows == char_rows(lines@),
            lists_map(pairs@, port_pid_map(rows.take(k as int))),
        decreases n - k,
    {
        assert(lines@[k as int]@ == rows[k as int]);
        assert(rows.take(k + 1).drop_last() =~= rows.take(k as int));
        match listen_line_entry_exec(&lines[k]) {
            Some((port, pid)) => {
                set_port_pid(&mut pairs, port, pid, Ghost(port_pid_map(rows.take(k as int))));
            },
            None => {},
        }
        k = k + 1;
    }
    assert(rows.take(n as int) =~= rows);
    pairs
}

} // verus!

verus! {

/// The target of a file descriptor that refers to the socket with inode `inode`
/// is named `socket:[INODE]`.
pub open spec fn socket_link(inode: u64) -> Seq<char> {
    "socket:["@ + decimal(inode as nat).push(']')
}

/// Whether the link target `target` names the socket with inode `inode`.
pub fn links_to_socket(target: &str, inode: u64) -> (b: bool)
    ensures
        b == contains(target@, socket_link(inode)),
{
    let mut pat = chars_of("socket:[");
    push_decimal(inode, &mut pat);
    pat.push(']');
    assert(pat@ =~= socket_link(inode));
    let t = chars_of(target);
    contains_exec(&t, &pat)
}

/// The first of the fields `fs` that holds a `/`.
pub open spec fn first_slash_field(fs: Seq<Seq<char>>) -> Option<Seq<char>>
    decreases fs.len(),
{
    if fs.len() == 0 {
        None
    } else if fs[0].contains('/') {
        Some(fs[0])
    } else {
        first_slash_field(fs.drop_first())
    }
}

/// The pid that a report line gives for the socket with inode `inode`: the line
/// holds `INODE:`, or both `socket` and `INODE`, and its first field with a `/`
/// starts with a decimal pid before that `/`.
pub open spec fn inode_line_pid(line: Seq<char>, inode: u64) -> Option<u32> {
    let num = decimal(inode as nat);
    if contains(line, num.push(':')) || (contains(line, "socket"@) && contains(line, num)) {
        match first_slash_field(fields(line)) {
            Some(f) => match parse_unsigned(pieces(f, '/')[0], 10, 0xffff_ffff) {
                Some(v) => Some(v as u32),
                None => None,
            },
            None => None,
        }
    } else {
        None
    }
}

/// The pid that the first line of `lines` with one gives for the socket with
/// inode `inode`.
pub open spec fn inode_owner(lines: Seq<Seq<char>>, inode: u64) -> Option<u32>
    decreases lines.len(),
{
    if lines.len() == 0 {
        None
    } else {
        match inode_line_pid(lines[0], inode) {
            Some(pid) => Some(pid),
            None => inode_owner(lines.drop_first(), inode),
        }
    }
}

fn inode_line_pid_exec(line: &Vec<char>, inode: u64, num: &Vec<char>, socket: &Vec<char>) -> (r:
    Option<u32>)
    requires
        num@ == decimal(inode as nat),
        socket@ == "socket"@,
    ensures
        r == inode_line_pid(line@, inode),
{
    let mut num_colon = num.clone();
    num_colon.push(':');
    assert(num_colon@ =~= decimal(inode as nat).push(':'));
    if !(contains_exec(line, &num_colon) || (contains_exec(line, socket) && contains_exec(line, num))) {
        return None;
    }
    let fs = fields_of(line);
    let ghost all = fields(line@);
    assert(char_rows(fs@) == all);
    let n = fs.len();
    let mut k: usize = 0;
    assert(all.skip(0) =~= all);
    while k < n
        invariant
            k <= n,
            n == all.len(),
            char_rows(fs@) == all,
            all == fields(line@),
            contains(line@, decimal(inode as nat).push(':')) || (contains(line@, "socket"@)
                && contains(line@, decimal(inode as nat))),
            first_slash_field(all) == first_slash_field(all.skip(k as int)),
        decreases n - k,
    {
        assert(fs@[k as int]@ == all.skip(k as int)[0]);
        if has_char(&fs[k], '/') {
            assert(first_slash_field(all) == Some(fs@[k as int]@));
            let parts = pieces_of(&fs[k], '/');
            proof {
                crate::text::lemma_pieces_nonempty(fs@[k as int]@, '/');
            }
            assert(parts@[0]@ == pieces(fs@[k as int]@, '/')[0]);
            let r = match parse_unsigned_exec(&parts[0], 10, 0xffff_ffff) {
                Some(v) => Some(v as u32),
                None => None,
            };
            return r;
        }
        assert(all.skip(k as int).drop_first() =~= all.skip(k + 1));
        k = k + 1;
    }
    assert(all.skip(n as int) =~= Seq::<Seq<char>>::empty());
    None
}

/// The pid that the report `report` gives for the socket with inode `inode`:
/// that of the first line that names one.
pub fn ss_pid_for_inode(report: &str, inode: u64) -> (r: Option<u32>)
    ensures
        r == inode_owner(text_lines(report@), inode),
{
    let chars = chars_of(report);
    let lines = lines_of(&chars);
    let ghost rows = text_lines(report@);
    let num = crate::numbers::decimal_chars(inode);
    let socket = chars_of("socket");
    let n = lines.len();
    let mut k: usize = 0;
    assert(rows.skip(0) =~= rows);
    while k < n
        invariant
            k <= n,
            n == rows.len(),
            rows == char_rows(lines@),
            rows == text_lines(report@),
            num@ == decimal(inode as nat),
            socket@ == "socket"@,
            inode_owner(rows, inode) == inode_owner(rows.skip(k as int), inode),
        decreases n - k,
    {
        assert(lines@[k as int]@ == rows.skip(k as int)[0]);
        assert(rows.skip(k as int).drop_first() =~= rows.skip(k + 1));
        match inode_line_pid_exec(&lines[k], inode, &num, &socket) {
            Some(pid) => {
                return Some(pid);
            },
            None => {},
        }
        k = k + 1;
    }
    assert(rows.skip(n as int) =~= Seq::<Seq<char>>::empty());
    None
}

} // verus!
