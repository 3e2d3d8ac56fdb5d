use portman::gui::{details_from, GuiBackend, PortInfo};
use portman::monitor::PortMonitor;
use portman::tui::{App, Key, KeyAction};
use sysinfo::{Pid, System};

fn own_pid() -> u32 {
    sysinfo::get_current_pid().expect("own pid").as_u32()
}

fn own_name() -> String {
    let system = System::new_all();
    system.process(Pid::from_u32(own_pid())).expect("own process").name().to_string()
}

fn report_line(port: u16, pid: u32) -> String {
    format!("LISTEN 0 128 127.0.0.1:{} 0.0.0.0:* users:((\"t\",pid={},fd=3))\n", port, pid)
}

#[test]
fn monitor_names_the_owner_of_a_port() {
    let monitor = PortMonitor::new();
    let pid = own_pid();
    let report = format!("{}{}", report_line(7777, pid), report_line(7777, u32::MAX));
    let procs = monitor.find_processes_using_port(&report, 7777);
    assert_eq!(procs, vec![(pid, own_name())]);
    assert!(monitor.find_processes_using_port(&report, 7778).is_empty());
}

#[test]
fn monitor_lists_ports_with_owners() {
    let monitor = PortMonitor::new();
    let pid = own_pid();
    let table = "header\n0: 0100007F:1E61 00000000:0000 0A\n1: 0100007F:0016 00000000:0000 0A\n";
    let report = report_line(7777, pid);
    let listing = monitor.port_listing(table, &report);
    assert_eq!(listing.len(), 2);
    assert_eq!(listing[0].0, 22);
    assert!(listing[0].1.is_empty());
    assert_eq!(listing[1].0, 7777);
    assert_eq!(listing[1].1, vec![(pid, own_name())]);
}

#[test]
fn desktop_lists_each_port_once_in_order() {
    let backend = GuiBackend::new();
    let pid = own_pid();
    let report = format!(
        "{}{}{}{}",
        report_line(9000, pid),
        report_line(80, u32::MAX),
        report_line(443, pid),
        report_line(9000, pid)
    );
    let ports = backend.get_all_ports(&report);
    let got: Vec<(u16, String, u32)> =
        ports.iter().map(|p| (p.port, p.process_name.clone(), p.pid)).collect();
    assert_eq!(got, vec![(443, own_name(), pid), (9000, own_name(), pid)]);
}

#[test]
fn desktop_details_of_a_listed_port() {
    let backend = GuiBackend::new();
    let pid = own_pid();
    let report = format!("{}{}", report_line(9000, pid), report_line(80, u32::MAX));
    let (entry, system) = backend.get_port_details(&report, 9000).expect("listed");
    assert_eq!((entry.port, entry.pid), (9000, pid));
    assert!(system.process(Pid::from_u32(pid)).is_some());
    assert!(backend.get_port_details(&report, 80).is_none());
    assert!(backend.get_port_details(&report, 1).is_none());
}

#[test]
fn dashboard_sorts_ports_and_navigates() {
    let pid = own_pid();
    let mut app = App::new();
    assert!(app.is_running());
    assert_eq!(app.selected_port(), None);
    app.refresh_ports(&vec![(8080, pid), (22, pid), (5000, u32::MAX), (8080, pid), (3000, pid)]);
    let ports: Vec<u16> = app.ports().iter().map(|p| p.port).collect();
    assert_eq!(ports, vec![22, 3000, 8080, 8080]);
    assert_eq!(app.selected_index(), 0);
    app.previous();
    assert_eq!(app.selected_index(), 3);
    app.next();
    assert_eq!(app.selected_index(), 0);
    app.next();
    app.next();
    assert_eq!(app.selected_port(), Some(8080));
    app.previous();
    assert_eq!(app.selected_port(), Some(3000));
}

#[test]
fn dashboard_keys() {
    let pid = own_pid();
    let mut app = App::new();
    assert_eq!(app.handle_key(Key::Char('d')), KeyAction::Continue);
    app.refresh_ports(&vec![(22, pid), (80, pid)]);
    assert_eq!(app.handle_key(Key::Down), KeyAction::Continue);
    assert_eq!(app.selected_index(), 1);
    assert_eq!(app.handle_key(Key::Char('j')), KeyAction::Continue);
    assert_eq!(app.selected_index(), 0);
    assert_eq!(app.handle_key(Key::Char('k')), KeyAction::Continue);
    assert_eq!(app.selected_index(), 1);
    assert_eq!(app.handle_key(Key::Delete), KeyAction::Kill(80));
    assert_eq!(app.handle_key(Key::Char('r')), KeyAction::Refresh);
    assert_eq!(app.handle_key(Key::Char('x')), KeyAction::Continue);
    assert_eq!(app.handle_key(Key::Other), KeyAction::Continue);
    assert!(app.is_running());
    assert_eq!(app.handle_key(Key::Esc), KeyAction::Quit);
    assert!(!app.is_running());
    let mut app = App::new();
    assert_eq!(app.handle_key(Key::Char('q')), KeyAction::Quit);
}

#[test]
fn dashboard_keeps_selection_past_a_shrunk_list() {
    let pid = own_pid();
    let mut app = App::new();
    app.refresh_ports(&vec![(1, pid), (2, pid), (3, pid)]);
    app.previous();
    assert_eq!(app.selected_index(), 2);
    app.refresh_ports(&vec![(1, pid)]);
    assert_eq!(app.selected_index(), 2);
    assert_eq!(app.selected_port(), None);
    assert_eq!(app.handle_key(Key::Char('d')), KeyAction::Continue);
    app.next();
    assert_eq!(app.selected_index(), 0);
}

#[test]
fn dashboard_sort_keeps_order_of_equal_ports() {
    let me = own_pid();
    let system = System::new_all();
    let other = system
        .processes()
        .keys()
        .map(|p| p.as_u32())
        .find(|p| *p != me)
        .expect("another process");
    let mut app = App::new();
    app.refresh_ports(&vec![(80, other), (22, me), (80, me), (22, other)]);
    let got: Vec<(u16, u32)> = app.ports().iter().map(|p| (p.port, p.pid)).collect();
    assert_eq!(got, vec![(22, me), (22, other), (80, other), (80, me)]);
}

#[test]
fn details_from_uses_the_first_entry_and_the_given_snapshot() {
    let pid = own_pid();
    let listed = vec![
        PortInfo { port: 22, process_name: "a".to_string(), pid: u32::MAX },
        PortInfo { port: 9000, process_name: "b".to_string(), pid },
        PortInfo { port: 9000, process_name: "c".to_string(), pid: u32::MAX },
    ];
    let (entry, system) = details_from(listed.clone(), System::new_all(), 9000).expect("owner");
    assert_eq!((entry.port, entry.process_name.as_str(), entry.pid), (9000, "b", pid));
    assert!(system.process(Pid::from_u32(pid)).is_some());
    assert!(details_from(listed.clone(), System::new_all(), 22).is_none());
    assert!(details_from(listed, System::new_all(), 1).is_none());
}

#[test]
fn desktop_lists_a_port_on_all_interfaces() {
    let backend = GuiBackend::new();
    let pid = own_pid();
    let report = format!("LISTEN 0 511 0.0.0.0:8080 0.0.0.0:* users:((\"node\",pid={},fd=20))\n", pid);
    let ports = backend.get_all_ports(&report);
    let got: Vec<(u16, u32)> = ports.iter().map(|p| (p.port, p.pid)).collect();
    assert_eq!(got, vec![(8080, pid)]);
}

#[test]
fn monitor_ignores_a_longer_port_with_the_same_prefix() {
    let monitor = PortMonitor::new();
    let pid = own_pid();
    let report = report_line(30001, pid);
    assert!(monitor.find_processes_using_port(&report, 3000).is_empty());
    assert_eq!(monitor.find_processes_using_port(&report, 30001), vec![(pid, own_name())]);
}
