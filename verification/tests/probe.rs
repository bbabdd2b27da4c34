//! The search for the LED driver.
use sense_hat_meter::driver::SenseHatLED;
use sense_hat_meter::probe::{greeting, AttemptFailure, Probe, ProbeAction, ProbeError, I2C_DEVICE};

/// Runs a search in which the actions fail as listed, in order.
fn search(failures: &[Option<&str>]) -> (Vec<String>, ProbeAction) {
    let mut probe = Probe::new();
    let mut log = Vec::new();
    let mut failure: Option<String> = None;
    let mut i = 0;
    loop {
        let action = probe.next(failure.take());
        match action {
            ProbeAction::CheckDevice => log.push("check".to_string()),
            ProbeAction::Open => log.push("open".to_string()),
            ProbeAction::SetAddress { address } => log.push(format!("address {:02X}", address)),
            ProbeAction::Initialize { led } => log.push(format!("init {:02X}", led.address)),
            end => return (log, end),
        }
        failure = failures[i].map(|s| s.to_string());
        i += 1;
    }
}

fn message(action: ProbeAction) -> String {
    match action {
        ProbeAction::GiveUp { error } => error.message(),
        _ => panic!("the search gave up"),
    }
}

fn found(action: ProbeAction) -> SenseHatLED {
    match action {
        ProbeAction::Found { led } => led,
        _ => panic!("the search found the driver"),
    }
}

const ADVICE: &str = "\n\nTroubleshooting:\n- Ensure I²C is enabled: sudo raspi-config\n- Check device exists: ls -l /dev/i2c-1\n- Verify permissions: sudo usermod -a -G i2c $USER\n- Check if Sense HAT is connected: i2cdetect -y 1";

#[test]
fn the_bus_has_its_path() {
    assert_eq!(I2C_DEVICE, "/dev/i2c-1");
}

#[test]
fn the_first_address_is_preferred() {
    let (log, end) = search(&[None, None, None, None]);
    assert_eq!(log, vec!["check", "open", "address 46", "init 46"]);
    assert_eq!(found(end), SenseHatLED { address: 0x46 });
}

#[test]
fn the_second_address_is_tried_after_each_failure() {
    let (log, end) = search(&[None, Some("a"), None, None, None]);
    assert_eq!(log, vec!["check", "open", "open", "address 74", "init 74"]);
    assert_eq!(found(end), SenseHatLED { address: 0x74 });

    let (log, end) = search(&[None, None, Some("a"), None, None, None]);
    assert_eq!(log, vec!["check", "open", "address 46", "open", "address 74", "init 74"]);
    assert_eq!(found(end).address, 0x74);

    let (log, end) = search(&[None, None, None, Some("a"), None, None, None]);
    assert_eq!(
        log,
        vec!["check", "open", "address 46", "init 46", "open", "address 74", "init 74"]
    );
    assert_eq!(found(end).address, 0x74);
}

#[test]
fn a_missing_bus_ends_the_search() {
    let (log, end) = search(&[Some("")]);
    assert_eq!(log, vec!["check"]);
    assert_eq!(message(end), "I²C device /dev/i2c-1 not found. Is I²C enabled?");
}

#[test]
fn the_last_failure_is_told() {
    let intro = "Failed to initialize Sense HAT LED matrix. Tried addresses 0x46 and 0x74.\nLast error: ";
    let (_, end) = search(&[None, Some("a"), Some("no entry")]);
    assert_eq!(message(end), format!("{}Failed to open /dev/i2c-1: no entry{}", intro, ADVICE));
    let (_, end) = search(&[None, Some("a"), None, Some("busy")]);
    assert_eq!(
        message(end),
        format!("{}Failed to set I²C slave address 0x74: busy{}", intro, ADVICE)
    );
    let (_, end) = search(&[None, None, None, Some("a"), None, None, Some("b")]);
    assert_eq!(message(end), format!("{}Initialization failed at 0x74: b{}", intro, ADVICE));
}

#[test]
fn reports_have_their_words() {
    let failure = AttemptFailure::SetAddress { address: 0x46, cause: "x".to_string() };
    assert_eq!(failure.message(), "Failed to set I²C slave address 0x46: x");
    let error = ProbeError::DeviceMissing;
    assert_eq!(
        error.final_message(),
        format!(
            "Could not initialize Sense HAT LED matrix: I²C device /dev/i2c-1 not found. Is I²C enabled?{}",
            ADVICE
        )
    );
    assert_eq!(greeting(0x46), "Successfully initialized Sense HAT LED at I²C address 0x46");
    assert_eq!(greeting(0x0F), "Successfully initialized Sense HAT LED at I²C address 0x0F");
}
