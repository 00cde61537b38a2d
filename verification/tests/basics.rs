use mesh_core::args::{Args, Mode};
use mesh_core::errors::MeshError;
use mesh_core::peripheral::{get_time, Peripherals, SerialPort, SysTick};

#[test]
fn default_arguments() {
    let args = Args::default();
    assert_eq!(args.config, "config.toml");
    assert_eq!(args.log_config, "log_config.yml");
    assert_eq!(args.mode, Mode::Server);
    let copy = args.clone();
    assert_eq!(copy.config, args.config);
}

#[test]
fn explicit_arguments() {
    let args = Args::new("a.toml".to_string(), "b.yml".to_string(), Mode::Client);
    assert_eq!(args.config, "a.toml");
    assert_eq!(args.log_config, "b.yml");
    assert_eq!(args.mode, Mode::Client);
}

#[test]
fn no_route_description() {
    assert_eq!(MeshError::NoRoute.describe(), "no route available via any link");
}

#[test]
fn timer_reads_current_value_register() {
    let regs = SysTick { csr: 1, rvr: 12_000_000, cvr: 1234, calib: 0 };
    assert_eq!(get_time(&regs), 1234);
}

#[test]
fn serial_port_can_be_taken_once() {
    let mut p = Peripherals { serial: Some(SerialPort) };
    let _port = p.take_serial();
    assert!(p.serial.is_none());
}
