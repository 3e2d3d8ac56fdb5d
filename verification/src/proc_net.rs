//! The kernel's TCP socket table (`/proc/net/tcp`): one header line, then one row
//! per socket whose fields are separated by whitespace. Field 1 is the local
//! address as `HEXADDR:HEXPORT`, field 3 the socket state in hexadecimal
//! (`0A` for a listening socket) and field 9 the socket's inode.

use vstd::prelude::*;
use crate::numbers::{
    hex_fixed, hex_lower, lemma_hex_fixed_value, lemma_hex_lower_value, parse_unsigned,
    parse_unsigned_exec, pow16, unsigned_digits,
};
use crate::text::{
    char_rows, chars_of, fields, fields_of, lemma_pieces_of_pair, lines_of, pieces, pieces_of,
    text_lines,
};

verus! {

/// The socket state that marks a listening socket.
pub const TCP_LISTEN: u64 = 10;

/// Why a local address field yields no port.
#[derive(Debug, Clone, Copy, PartialEq, Eq, Structural)]
pub enum PortParseError {
    /// The field is not made of exactly two parts around one `:`.
    InvalidFormat,
    /// The part after the `:` is not a hexadecimal number of at most 16 bits.
    InvalidNumber,
}

/// The port of an address field `ADDR:PORT` whose port is hexadecimal.
pub open spec fn spec_parse_port(s: Seq<char>) -> Result<u16, PortParseError> {
    let parts = pieces(s, ':');
    if parts.len() == 2 {
        match parse_unsigned(parts[1], 16, 0xffff) {
            Some(v) => Ok(v as u16),
            None => Err(PortParseError::InvalidNumber),
        }
    } else {
        Err(PortParseError::InvalidFormat)
    }
}

/// The port of an address field given as characters.
pub fn parse_port_chars(s: &Vec<char>) -> (r: Result<u16, PortParseError>)
    ensures
        r == spec_parse_port(s@),
{
    let parts = pieces_of(s, ':');
    if parts.len() == 2 {
        assert(parts@[1]@ == pieces(s@, ':')[1]);
        match parse_unsigned_exec(&parts[1], 16, 0xffff) {
            Some(v) => Ok(v as u16),
            None => Err(PortParseError::InvalidNumber),
        }
    } else {
        Err(PortParseError::InvalidFormat)
    }
}

/// The port of an address field `ADDR:PORT` of the socket table, whose port is
/// written in hexadecimal.
pub fn parse_port(s: &str) -> (r: Result<u16, PortParseError>)
    ensures
        r == spec_parse_port(s@),
{
    let chars = chars_of(s);
    parse_port_chars(&chars)
}

/// The port of the listening socket that the table row `row` describes: a row
/// with more than three fields, a valid local address and the state `0A`.
pub open spec fn listen_row_port(row: Seq<char>) -> Option<u16> {
    let f = fields(row);
    if f.len() > 3 && spec_parse_port(f[1]) is Ok && parse_unsigned(f[3], 16, 0xffff_ffff)
        == Some(TCP_LISTEN as nat) {
        Some(spec_parse_port(f[1])->Ok_0)
    } else {
        None
    }
}

/// A table row yields a port exactly when it has more than three fields, its
/// state field reads in hexadecimal as 10 (`0A`, a listening socket) and its
/// local address field reads as that port; any other state (an established or
/// closing connection, say) yields none.
pub proof fn lemma_listen_row(row: Seq<char>)
    ensures
        forall|p: u16|
            listen_row_port(row) == Some(p) <==> {
                let f = fields(row);
                &&& f.len() > 3
                &&& parse_unsigned(f[3], 16, 0xffff_ffff) == Some(10nat)
                &&& spec_parse_port(f[1]) == Ok::<u16, PortParseError>(p)
            },
        listen_row_port(row) is Some ==> parse_unsigned(fields(row)[3], 16, 0xffff_ffff) == Some(
            10nat,
        ),
{
}

/// `port` is the port of a listening socket in one of the rows (all lines but the
/// first) of the table `table`.
pub open spec fn is_listening_port(table: Seq<char>, port: u16) -> bool {
    let rows = text_lines(table);
    exists|k: int| 1 <= k < rows.len() && listen_row_port(#[trigger] rows[k]) == Some(port)
}

/// Each element is smaller than the next.
pub open spec fn strictly_increasing(s: Seq<u16>) -> bool {
    forall|i: int, j: int| 0 <= i < j < s.len() ==> s[i] < s[j]
}

/// The fields of a row, with the port and state read.
fn listen_row_port_exec(row: &Vec<char>) -> (r: Option<u16>)
    ensures
        r == listen_row_port(row@),
{
    let f = fields_of(row);
    proof {
        assert(char_rows(f@) == fields(row@));
    }
    if f.len() > 3 {
        assert(f@[1]@ == fields(row@)[1]);
        assert(f@[3]@ == fields(row@)[3]);
        match parse_port_chars(&f[1]) {
            Ok(port) => {
                match parse_unsigned_exec(&f[3], 16, 0xffff_ffff) {
                    Some(state) => {
                        if state == TCP_LISTEN {
                            Some(port)
                        } else {
                            None
                        }
                    },
                    None => None,
                }
            },
            Err(_) => None,
        }
    } else {
        None
    }
}

/// Inserting `x` adds exactly `x` to the elements of a sequence.
pub proof fn lemma_insert_elements(before: Seq<u16>, i: int, x: u16)
    requires
        0 <= i <= before.len(),
    ensures
        forall|y: u16| before.insert(i, x).contains(y) <==> (before.contains(y) || y == x),
{
    let after = before.insert(i, x);
    assert forall|y: u16| after.contains(y) <==> (before.contains(y) || y == x) by {
        if after.contains(y) {
            let k = choose|k: int| 0 <= k < after.len() && after[k] == y;
            if k < i {
                assert(before[k] == y);
            } else if k > i {
                assert(before[k - 1] == y);
            }
        }
        if before.contains(y) {
            let k = choose|k: int| 0 <= k < before.len() && before[k] == y;
            if k < i {
                assert(after[k] == y);
            } else {
                assert(after[k + 1] == y);
            }
        }
        if y == x {
            assert(after[i] == x);
        }
    }
}

/// Inserting `x` where it falls in a strictly increasing sequence keeps it so.
pub proof fn lemma_insert_increasing(before: Seq<u16>, i: int, x: u16)
    requires
        0 <= i <= before.len(),
        strictly_increasing(before),
        forall|j: int| 0 <= j < i ==> before[j] < x,
        i < before.len() ==> before[i] > x,
    ensures
        strictly_increasing(before.insert(i, x)),
{
    let after = before.insert(i, x);
    assert forall|a: int, b: int| 0 <= a < b < after.len() implies after[a] < after[b] by {
        if b < i {
        } else if b == i {
        } else if a < i {
            assert(after[b] == before[b - 1]);
            if b - 1 > i {
                assert(before[i] < before[b - 1]);
            }
        } else if a == i {
            assert(after[b] == before[b - 1]);
            if b - 1 > i {
                assert(before[i] < before[b - 1]);
            }
        } else {
            assert(after[a] == before[a - 1]);
            assert(after[b] == before[b - 1]);
        }
    }
}

/// Adds `x` to the strictly increasing `v` unless it is there already.
fn insert_unique(v: &mut Vec<u16>, x: u16)
    requires
        strictly_increasing(old(v)@),
    ensures
        strictly_increasing(final(v)@),
        forall|y: u16| final(v)@.contains(y) <==> (old(v)@.contains(y) || y == x),
{
    let n = v.len();
    let mut i: usize = 0;
    while i < n && v[i] < x
        invariant
            i <= n,
            n == v@.len(),
            v@ == old(v)@,
            forall|j: int| 0 <= j < i ==> v@[j] < x,
        decreases n - i,
    {
        i = i + 1;
    }
    if i < n && v[i] == x {
        assert(v@.contains(x));
        return;
    }
    proof {
        lemma_insert_elements(v@, i as int, x);
        lemma_insert_increasing(v@, i as int, x);
    }
    v.insert(i, x);
}

/// The ports of the listening sockets in the table `table`, each once and in
/// increasing order (the rows start after the header line).
pub fn listening_ports(table: &str) -> (ports: Vec<u16>)
    ensures
        strictly_increasing(ports@),
        forall|p: u16| ports@.contains(p) <==> is_listening_port(table@, p),
        forall|p: u16|
            ports@.contains(p) <==> exists|k: int|
                1 <= k < text_lines(table@).len() && {
                    let f = #[trigger] fields(text_lines(table@)[k]);
                    &&& f.len() > 3
                    &&& parse_unsigned(f[3], 16, 0xffff_ffff) == Some(10nat)
                    &&& spec_parse_port(f[1]) == Ok::<u16, PortParseError>(p)
                },
{
    let chars = chars_of(table);
    let rows = lines_of(&chars);
    let ghost lines = text_lines(table@);
    assert(char_rows(rows@) == lines);
    let mut ports: Vec<u16> = Vec::new();
    let n = rows.len();
    let mut k: usize = 1;
    while k < n
        invariant
            1 <= k,
            k <= n || k == 1,
            n == lines.len(),
            lines == text_lines(table@),
            char_rows(rows@) == lines,
            strictly_increasing(ports@),
            forall|p: u16|
                ports@.contains(p) <==> exists|j: int|
                    1 <= j < k && listen_row_port(#[trigger] lines[j]) == Some(p),
        decreases n - k,
    {
        assert(rows@[k as int]@ == lines[k as int]);
        let ghost before = ports@;
        match listen_row_port_exec(&rows[k]) {
            Some(port) => {
                insert_unique(&mut ports, port);
            },
            None => {},
        }
        assert forall|p: u16|
            ports@.contains(p) <==> exists|j: int|
                1 <= j < k + 1 && listen_row_port(#[trigger] lines[j]) == Some(p) by {
            if ports@.contains(p) {
                if before.contains(p) {
                    let j = choose|j: int| 1 <= j < k && listen_row_port(#[trigger] lines[j]) == Some(p);
                    assert(1 <= j < k + 1);
                } else {
                    assert(listen_row_port(lines[k as int]) == Some(p));
                }
            }
            if exists|j: int| 1 <= j < k + 1 && listen_row_port(#[trigger] lines[j]) == Some(p) {
                let j = choose|j: int| 1 <= j < k + 1 && listen_row_port(#[trigger] lines[j]) == Some(p);
                if j < k {
                    assert(before.contains(p));
                }
            }
        }
        k = k + 1;
    }
    assert forall|p: u16| ports@.contains(p) <==> is_listening_port(table@, p) by {
        if ports@.contains(p) {
            let j = choose|j: int| 1 <= j < k && listen_row_port(#[trigger] lines[j]) == Some(p);
            assert(1 <= j < lines.len());
        }
    }
    assert forall|p: u16|
        ports@.contains(p) <==> exists|k: int|
            1 <= k < text_lines(table@).len() && {
                let f = #[trigger] fields(text_lines(table@)[k]);
                &&& f.len() > 3
                &&& parse_unsigned(f[3], 16, 0xffff_ffff) == Some(10nat)
                &&& spec_parse_port(f[1]) == Ok::<u16, PortParseError>(p)
            } by {
        if ports@.contains(p) {
            let j = choose|j: int| 1 <= j < lines.len() && listen_row_port(#[trigger] lines[j]) == Some(p);
            lemma_listen_row(lines[j]);
            assert(fields(text_lines(table@)[j]) == fields(lines[j]));
        }
        if exists|k: int|
            1 <= k < text_lines(table@).len() && {
                let f = #[trigger] fields(text_lines(table@)[k]);
                &&& f.len() > 3
                &&& parse_unsigned(f[3], 16, 0xffff_ffff) == Some(10nat)
                &&& spec_parse_port(f[1]) == Ok::<u16, PortParseError>(p)
            } {
            let j = choose|j: int|
                1 <= j < text_lines(table@).len() && {
                    let f = #[trigger] fields(text_lines(table@)[j]);
                    &&& f.len() > 3
                    &&& parse_unsigned(f[3], 16, 0xffff_ffff) == Some(10nat)
                    &&& spec_parse_port(f[1]) == Ok::<u16, PortParseError>(p)
                };
            lemma_listen_row(lines[j]);
            assert(listen_row_port(lines[j]) == Some(p));
            assert(is_listening_port(table@, p));
        }
    }
    ports
}

} // verus!

verus! {

/// The rows of the table: its lines after the header line.
pub open spec fn table_rows(table: Seq<char>) -> Seq<Seq<char>> {
    let lines = text_lines(table);
    if lines.len() > 0 {
        lines.skip(1)
    } else {
        seq![]
    }
}

/// The port and the inode (field 9, in decimal) of the listening socket that the
/// row `row` describes, when that inode field reads as a number.
pub open spec fn listen_row_socket(row: Seq<char>) -> Option<(u16, u64)> {
    match listen_row_port(row) {
        Some(port) => match parse_unsigned(fields(row)[9], 10, 0xffff_ffff_ffff_ffff) {
            Some(inode) => Some((port, inode as u64)),
            None => None,
        },
        None => None,
    }
}

/// Every row that describes a listening socket has an inode field.
pub open spec fn listen_rows_complete(table: Seq<char>) -> bool {
    let rows = table_rows(table);
    forall|k: int|
        0 <= k < rows.len() && (#[trigger] listen_row_port(rows[k])) is Some ==> fields(
            rows[k],
        ).len() > 9
}

/// The listening sockets that the rows `rows` describe, as (port, inode) pairs
/// in the order of the rows.
pub open spec fn socket_rows(rows: Seq<Seq<char>>) -> Seq<(u16, u64)>
    decreases rows.len(),
{
    if rows.len() == 0 {
        seq![]
    } else {
        let before = socket_rows(rows.drop_last());
        match listen_row_socket(rows.last()) {
            Some(x) => before.push(x),
            None => before,
        }
    }
}

fn listen_row_socket_exec(row: &Vec<char>) -> (r: Option<(u16, u64)>)
    requires
        listen_row_port(row@) is Some ==> fields(row@).len() > 9,
    ensures
        r == listen_row_socket(row@),
{
    match listen_row_port_exec(row) {
        Some(port) => {
            let f = fields_of(row);
            assert(char_rows(f@) == fields(row@));
            assert(f@[9]@ == fields(row@)[9]);
            match parse_unsigned_exec(&f[9], 10, 0xffff_ffff_ffff_ffff) {
                Some(inode) => Some((port, inode)),
                None => None,
            }
        },
        None => None,
    }
}

/// Whether every row of `table` that describes a listening socket has an inode
/// field.
pub fn listen_rows_complete_exec(table: &str) -> (b: bool)
    ensures
        b == listen_rows_complete(table@),
{
    let chars = chars_of(table);
    let lines = lines_of(&chars);
    let ghost rows = table_rows(table@);
    let n = lines.len();
    if n == 0 {
        return true;
    }
    assert(rows =~= char_rows(lines@).skip(1));
    let mut k: usize = 1;
    while k < n
        invariant
            1 <= k <= n,
            n == lines@.len(),
            rows == char_rows(lines@).skip(1),
            rows == table_rows(table@),
            forall|j: int|
                0 <= j < k - 1 && (#[trigger] listen_row_port(rows[j])) is Some ==> fields(
                    rows[j],
                ).len() > 9,
        decreases n - k,
    {
        assert(rows[k - 1] == lines@[k as int]@);
        if listen_row_port_exec(&lines[k]).is_some() {
            let f = fields_of(&lines[k]);
            if f.len() <= 9 {
                assert(listen_row_port(rows[k - 1]) is Some);
                return false;
            }
        }
        k = k + 1;
    }
    true
}

/// The listening sockets of the table `table`, as (port, inode) pairs in the
/// order of its rows.
pub fn listening_sockets(table: &str) -> (sockets: Vec<(u16, u64)>)
    requires
        listen_rows_complete(table@),
    ensures
        sockets@ == socket_rows(table_rows(table@)),
{
    let chars = chars_of(table);
    let lines = lines_of(&chars);
    let ghost rows = table_rows(table@);
    let mut sockets: Vec<(u16, u64)> = Vec::new();
    let n = lines.len();
    if n == 0 {
        assert(rows =~= Seq::<Seq<char>>::empty());
        return sockets;
    }
    assert(rows =~= char_rows(lines@).skip(1));
    let mut k: usize = 1;
    assert(rows.take(0) =~= Seq::<Seq<char>>::empty());
    while k < n
        invariant
            1 <= k <= n,
            n == lines@.len(),
            rows == char_rows(lines@).skip(1),
            listen_rows_complete(table@),
            rows == table_rows(table@),
            sockets@ == socket_rows(rows.take(k - 1)),
        decreases n - k,
    {
        assert(rows[k - 1] == lines@[k as int]@);
        assert(rows.take(k as int).drop_last() =~= rows.take(k - 1));
        assert(listen_row_port(rows[k - 1]) is Some ==> fields(rows[k - 1]).len() > 9);
        match listen_row_socket_exec(&lines[k]) {
            Some(x) => {
                sockets.push(x);
            },
            None => {},
        }
        k = k + 1;
    }
    assert(rows.take(n - 1) =~= rows);
    sockets
}

} // verus!

verus! {

/// The (port, pid) pairs of the sockets `sockets` whose owner lookup `pids` (one
/// answer per socket, in the same order) found a pid, in the sockets' order.
pub open spec fn found_owners(sockets: Seq<(u16, u64)>, pids: Seq<Option<u32>>) -> Seq<(u16, u32)>
    decreases sockets.len(),
{
    if sockets.len() == 0 || pids.len() == 0 {
        seq![]
    } else {
        let before = found_owners(sockets.drop_last(), pids.drop_last());
        match pids.last() {
            Some(pid) => before.push((sockets.last().0, pid)),
            None => before,
        }
    }
}

/// Pairs each socket's port with the pid that the owner lookup found for it,
/// leaving out the sockets whose owner was not found.
pub fn socket_owners(sockets: &Vec<(u16, u64)>, pids: &Vec<Option<u32>>) -> (owners: Vec<(u16, u32)>)
    requires
        sockets@.len() == pids@.len(),
    ensures
        owners@ == found_owners(sockets@, pids@),
{
    let mut owners: Vec<(u16, u32)> = Vec::new();
    let n = sockets.len();
    let mut k: usize = 0;
    while k < n
        invariant
            k <= n,
            n == sockets@.len(),
            n == pids@.len(),
            owners@ == found_owners(sockets@.take(k as int), pids@.take(k as int)),
        decreases n - k,
    {
        assert(sockets@.take(k + 1).drop_last() =~= sockets@.take(k as int));
        assert(pids@.take(k + 1).drop_last() =~= pids@.take(k as int));
        match pids[k] {
            Some(pid) => owners.push((sockets[k].0, pid)),
            None => {},
        }
        k = k + 1;
    }
    assert(sockets@.take(n as int) =~= sockets@);
    assert(pids@.take(n as int) =~= pids@);
    owners
}

} // verus!

verus! {

/// An address field whose port is written in hexadecimal, as four capital digits
/// (the kernel's `%04X`) or as small digits without leading zeros (`{:x}`), reads
/// back as that port, whatever the address before the `:` (holding no `:`) is.
pub proof fn lemma_parse_port_round_trip(addr: Seq<char>, port: u16)
    requires
        !addr.contains(':'),
    ensures
        spec_parse_port(addr + seq![':'] + hex_fixed(port as nat, 4, true)) == Ok::<u16, PortParseError>(port),
        spec_parse_port(addr + seq![':'] + hex_lower(port as nat)) == Ok::<u16, PortParseError>(port),
{
    assert(pow16(4) == 65536) by {
        reveal_with_fuel(pow16, 5);
    }
    let upper = hex_fixed(port as nat, 4, true);
    lemma_hex_fixed_value(port as nat, 4, true);
    lemma_pieces_of_pair(addr, upper, ':');
    assert(unsigned_digits(upper) == upper);
    let lower = hex_lower(port as nat);
    lemma_hex_lower_value(port as nat);
    lemma_pieces_of_pair(addr, lower, ':');
    assert(unsigned_digits(lower) == lower);
}

} // verus!
