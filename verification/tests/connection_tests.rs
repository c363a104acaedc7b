use serial_monitor::connection::DataBits;
use serial_monitor::connection::Device;
use serial_monitor::connection::DisconnectKind;
use serial_monitor::connection::FlowControl;
use serial_monitor::connection::Parity;
use serial_monitor::connection::StopBits;
use serial_monitor::connection::after_disconnect;
use serial_monitor::connection::disconnected;
use serial_monitor::connection::get_device;
use serial_monitor::settings::SerialDevices;
use serial_monitor::settings::clear_serial_settings;
use serial_monitor::settings::select_device;

fn named(name: &str) -> Device {
    let mut d = Device::default();
    d.name = name.to_string();
    d
}

#[test]
fn default_device_is_unconfigured_9600_8n1() {
    let d = Device::default();
    assert_eq!(d.name, "");
    assert_eq!(d.baud_rate, 9600);
    assert_eq!(d.data_bits, DataBits::Eight);
    assert_eq!(d.parity, Parity::NoParity);
    assert_eq!(d.stop_bits, StopBits::One);
    assert_eq!(d.flow_control, FlowControl::NoFlow);
    assert_eq!(d.timeout_ms, 0);
}

#[test]
fn reconnection_memory_wins_over_configured_endpoint() {
    let live = vec!["A".to_string(), "B".to_string()];
    let configured = named("B");
    let memory = named("A");
    let chosen = get_device(&live, &configured, &memory).expect("a device must be chosen");
    assert_eq!(chosen.name, "A");
}

#[test]
fn configured_endpoint_is_used_without_memory() {
    let live = vec!["B".to_string()];
    let configured = named("B");
    let memory = Device::default();
    let chosen = get_device(&live, &configured, &memory).expect("a device must be chosen");
    assert_eq!(chosen.name, "B");
}

#[test]
fn search_goes_on_when_nothing_is_present() {
    let live = vec!["C".to_string()];
    assert!(get_device(&live, &named("B"), &named("A")).is_none());
}

#[test]
fn changed_name_means_user_disconnect() {
    let live = vec!["A".to_string()];
    let k = disconnected(&named("A"), "", &live);
    assert_eq!(k, DisconnectKind::UserRequested);
}

#[test]
fn missing_device_means_physical_disconnect() {
    let live = vec!["B".to_string()];
    let k = disconnected(&named("A"), "A", &live);
    assert_eq!(k, DisconnectKind::DeviceLost);
}

#[test]
fn present_and_configured_means_still_connected() {
    let live = vec!["A".to_string()];
    let k = disconnected(&named("A"), "A", &live);
    assert_eq!(k, DisconnectKind::Connected);
}

#[test]
fn user_disconnect_clears_reconnection_memory() {
    let (memory, clear_name) = after_disconnect(DisconnectKind::UserRequested, &named("A"));
    assert_eq!(memory.name, "");
    assert!(!clear_name);
}

#[test]
fn lost_device_becomes_reconnection_memory() {
    let (memory, clear_name) = after_disconnect(DisconnectKind::DeviceLost, &named("A"));
    assert_eq!(memory.name, "A");
    assert!(clear_name);
}

#[test]
fn default_history_has_one_blank_device() {
    let s = SerialDevices::default();
    assert_eq!(s.devices.len(), 1);
    assert_eq!(s.devices[0].name, "");
    assert_eq!(s.labels, vec![vec!["Column 0".to_string()]]);
    assert_eq!(s.highlight_labels, vec![vec!["".to_string()]]);
    assert_eq!(s.number_of_plots, vec![1]);
    assert_eq!(s.number_of_highlights, vec![1]);
}

#[test]
fn clear_serial_settings_returns_the_defaults() {
    let s = clear_serial_settings();
    assert_eq!(s.devices.len(), 1);
    assert_eq!(s.devices[0].name, "");
    assert_eq!(s.number_of_plots, vec![1]);
}

#[test]
fn selecting_a_known_device_reuses_its_entry() {
    let mut s = SerialDevices::default();
    let first = select_device(&mut s, "ttyUSB0");
    assert_eq!(first, 1);
    let again = select_device(&mut s, "ttyUSB0");
    assert_eq!(again, 1);
    assert_eq!(s.devices.len(), 2);
}

#[test]
fn selecting_a_new_device_appends_defaults() {
    let mut s = SerialDevices::default();
    let idx = select_device(&mut s, "ttyACM3");
    assert_eq!(idx, 1);
    assert_eq!(s.devices[1].name, "ttyACM3");
    assert_eq!(s.devices[1].baud_rate, 9600);
    assert_eq!(s.labels[1], vec!["Column 0".to_string()]);
    assert_eq!(s.highlight_labels[1], vec!["".to_string()]);
    assert_eq!(s.number_of_plots[1], 1);
    assert_eq!(s.number_of_highlights[1], 1);
}
