//! Finding a running OpenOCD: which processes are OpenOCD servers, which TCP
//! ports they hold, and which protocol each probed port speaks.
use vstd::prelude::*;

verus! {

/// A running OpenOCD server and the TCP ports it holds open.
#[derive(Clone, Debug)]
pub struct OpenOCDInfo {
    pub process_name: String,
    pub pid: u32,
    pub open_tcp_ports: Vec<u16>,
}

#[derive(Clone, Copy, Debug, PartialEq, Eq, Structural)]
pub enum Protocol {
    GDB,
    Telnet,
}

/// A running process.
#[derive(Clone, Debug)]
pub struct ProcessEntry {
    pub name: String,
    pub pid: u32,
}

/// An open socket: the processes it belongs to, and its local port where it
/// is a TCP socket.
#[derive(Clone, Debug)]
pub struct SocketEntry {
    pub associated_pids: Vec<u32>,
    pub tcp_port: Option<u16>,
}

pub open spec fn contains_at(s: Seq<char>, pattern: Seq<char>, i: int) -> bool {
    0 <= i && i + pattern.len() <= s.len() && s.subrange(i, i + pattern.len()) == pattern
}

pub open spec fn contains_text(s: Seq<char>, pattern: Seq<char>) -> bool {
    exists|i: int| contains_at(s, pattern, i)
}

/// The TCP ports, in order, of the sockets that belong to process `pid`.
pub open spec fn ports_of(sockets: Seq<SocketEntry>, pid: u32) -> Seq<u16>
    decreases sockets.len(),
{
    if sockets.len() == 0 {
        Seq::empty()
    } else {
        let rest = ports_of(sockets.drop_last(), pid);
        let s = sockets.last();
        if s.associated_pids@.contains(pid) && s.tcp_port is Some {
            rest.push(s.tcp_port->0)
        } else {
            rest
        }
    }
}

/// What an OpenOCD server entry holds, as plain values.
pub open spec fn info_view(i: OpenOCDInfo) -> (Seq<char>, u32, Seq<u16>) {
    (i.process_name@, i.pid, i.open_tcp_ports@)
}

/// The OpenOCD servers among `processes`, in order: those whose name holds
/// `openocd`, each with the ports of its sockets.
pub open spec fn openocd_servers(processes: Seq<ProcessEntry>, sockets: Seq<SocketEntry>) -> Seq<
    (Seq<char>, u32, Seq<u16>),
>
    decreases processes.len(),
{
    if processes.len() == 0 {
        Seq::empty()
    } else {
        let rest = openocd_servers(processes.drop_last(), sockets);
        let p = processes.last();
        if contains_text(p.name@, "openocd"@) {
            rest.push((p.name@, p.pid, ports_of(sockets, p.pid)))
        } else {
            rest
        }
    }
}

/// `pattern` occurs in `s`.
pub fn str_contains(s: &str, pattern: &str) -> (r: bool)
    ensures
        r == contains_text(s@, pattern@),
{
    let n = s.unicode_len();
    let m = pattern.unicode_len();
    if m > n {
        proof {
            assert forall|i: int| !contains_at(s@, pattern@, i) by {}
        }
        return false;
    }
    let mut i: usize = 0;
    while i <= n - m
        invariant
            n == s@.len(),
            m == pattern@.len(),
            m <= n,
            i <= n - m + 1,
            forall|k: int| 0 <= k < i ==> !contains_at(s@, pattern@, k),
        decreases n - m + 1 - i,
    {
        let mut j: usize = 0;
        while j < m && s.get_char(i + j) == pattern.get_char(j)
            invariant
                n == s@.len(),
                m == pattern@.len(),
                i + m <= n,
                j <= m,
                forall|k: int| 0 <= k < j ==> s@[i + k] == pattern@[k],
            decreases m - j,
        {
            j += 1;
        }
        if j == m {
            proof {
                assert(s@.subrange(i as int, i + m) =~= pattern@);
                assert(contains_at(s@, pattern@, i as int));
            }
            return true;
        }
        proof {
            assert(s@.subrange(i as int, i + m)[j as int] != pattern@[j as int]);
        }
        i += 1;
    }
    proof {
        assert forall|k: int| !contains_at(s@, pattern@, k) by {
            if 0 <= k < i {
            }
        }
    }
    false
}

fn holds_pid(pids: &Vec<u32>, pid: u32) -> (r: bool)
    ensures
        r == pids@.contains(pid),
{
    let mut i: usize = 0;
    while i < pids.len()
        invariant
            i <= pids@.len(),
            forall|k: int| 0 <= k < i ==> pids@[k] != pid,
        decreases pids.len() - i,
    {
        if pids[i] == pid {
            proof {
                assert(pids@[i as int] == pid);
            }
            return true;
        }
        i += 1;
    }
    false
}

/// The TCP ports of the sockets that belong to process `pid`.
pub fn open_tcp_ports(sockets: &[SocketEntry], pid: u32) -> (r: Vec<u16>)
    ensures
        r@ == ports_of(sockets@, pid),
{
    let mut r: Vec<u16> = Vec::new();
    let mut i: usize = 0;
    while i < sockets.len()
        invariant
            i <= sockets@.len(),
            r@ == ports_of(sockets@.take(i as int), pid),
        decreases sockets.len() - i,
    {
        proof {
            assert(sockets@.take(i + 1).drop_last() =~= sockets@.take(i as int));
        }
        let s = &sockets[i];
        if holds_pid(&s.associated_pids, pid) {
            if let Some(port) = s.tcp_port {
                r.push(port);
            }
        }
        i += 1;
    }
    proof {
        assert(sockets@.take(i as int) =~= sockets@);
    }
    r
}

/// The OpenOCD servers among the running processes: those whose name holds
/// `openocd`, each with the TCP ports of its sockets.
pub fn find_running_openocd(processes: &[ProcessEntry], sockets: &[SocketEntry]) -> (r: Vec<
    OpenOCDInfo,
>)
    ensures
        r@.map_values(|i: OpenOCDInfo| info_view(i)) == openocd_servers(processes@, sockets@),
{
    let mut r: Vec<OpenOCDInfo> = Vec::new();
    let mut i: usize = 0;
    while i < processes.len()
        invariant
            i <= processes@.len(),
            r@.map_values(|i: OpenOCDInfo| info_view(i)) == openocd_servers(
                processes@.take(i as int),
                sockets@,
            ),
        decreases processes.len() - i,
    {
        proof {
            assert(processes@.take(i + 1).drop_last() =~= processes@.take(i as int));
        }
        let p = &processes[i];
        if str_contains(p.name.as_str(), "openocd") {
            let info = OpenOCDInfo {
                process_name: p.name.clone(),
                pid: p.pid,
                open_tcp_ports: open_tcp_ports(sockets, p.pid),
            };
            let ghost before = r@.map_values(|i: OpenOCDInfo| info_view(i));
            r.push(info);
            proof {
                assert(r@.map_values(|i: OpenOCDInfo| info_view(i)) =~= before.push(
                    info_view(info),
                ));
            }
        }
        i += 1;
    }
    proof {
        assert(processes@.take(i as int) =~= processes@);
    }
    r
}

/// The protocols found on probed ports, in order: `GDB` where the GDB probe
/// answered, else `Telnet` where the Telnet probe did; ports where neither
/// did are left out.
pub open spec fn probed_protocols(
    ports: Seq<u16>,
    gdb_found: Seq<bool>,
    telnet_found: Seq<bool>,
) -> Seq<(u16, Option<Protocol>)>
    decreases ports.len(),
{
    if ports.len() == 0 {
        Seq::empty()
    } else {
        let n = ports.len() - 1;
        let rest = probed_protocols(ports.drop_last(), gdb_found, telnet_found);
        if gdb_found[n] {
            rest.push((ports[n], Some(Protocol::GDB)))
        } else if telnet_found[n] {
            rest.push((ports[n], Some(Protocol::Telnet)))
        } else {
            rest
        }
    }
}

/// Names the protocol of each probed port, from the probes' answers: the
/// GDB probe first, the Telnet probe where GDB did not answer.
pub fn probe_tcp_ports_protocols(ports: &[u16], gdb_found: &[bool], telnet_found: &[bool]) -> (r:
    Vec<(u16, Option<Protocol>)>)
    requires
        gdb_found@.len() == ports@.len(),
        telnet_found@.len() == ports@.len(),
    ensures
        r@ == probed_protocols(ports@, gdb_found@, telnet_found@),
{
    let mut r: Vec<(u16, Option<Protocol>)> = Vec::new();
    let mut i: usize = 0;
    while i < ports.len()
        invariant
            i <= ports@.len(),
            gdb_found@.len() == ports@.len(),
            telnet_found@.len() == ports@.len(),
            r@ == probed_protocols(ports@.take(i as int), gdb_found@, telnet_found@),
        decreases ports.len() - i,
    {
        proof {
            assert(ports@.take(i + 1).drop_last() =~= ports@.take(i as int));
        }
        if gdb_found[i] {
            r.push((ports[i], Some(Protocol::GDB)));
        } else if telnet_found[i] {
            r.push((ports[i], Some(Protocol::Telnet)));
        }
        i += 1;
    }
    proof {
        assert(ports@.take(i as int) =~= ports@);
    }
    r
}

} // verus!
