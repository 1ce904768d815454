use ocdscope::find::{
    find_running_openocd, probe_tcp_ports_protocols, ProcessEntry, Protocol, SocketEntry,
};

#[test]
fn classifies_probed_ports() {
    let r = probe_tcp_ports_protocols(&[3333, 4444, 6666, 80], &[true, false, true, false], &[true, true, false, false]);
    assert_eq!(
        r,
        vec![(3333, Some(Protocol::GDB)), (4444, Some(Protocol::Telnet)), (6666, Some(Protocol::GDB))]
    );
    assert!(probe_tcp_ports_protocols(&[], &[], &[]).is_empty());
}

#[test]
fn finds_openocd_processes_and_ports() {
    let processes = vec![
        ProcessEntry { name: "bash".to_string(), pid: 1 },
        ProcessEntry { name: "/usr/bin/openocd".to_string(), pid: 42 },
    ];
    let sockets = vec![
        SocketEntry { associated_pids: vec![42], tcp_port: Some(3333) },
        SocketEntry { associated_pids: vec![1], tcp_port: Some(22) },
        SocketEntry { associated_pids: vec![7, 42], tcp_port: None },
        SocketEntry { associated_pids: vec![7, 42], tcp_port: Some(4444) },
    ];
    let found = find_running_openocd(&processes, &sockets);
    assert_eq!(found.len(), 1);
    assert_eq!(found[0].pid, 42);
    assert_eq!(found[0].process_name, "/usr/bin/openocd");
    assert_eq!(found[0].open_tcp_ports, vec![3333, 4444]);
}
