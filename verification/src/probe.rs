//! Finding the LED driver on the bus.
//!
//! The driver answers at one of two addresses. A [`Probe`] tries the first, then
//! the second: open the bus, set the address, bring the chip up. It says what to
//! do next and is told how it went.
use crate::driver::SenseHatLED;
use crate::text::{append_hex, ends_with, hex_byte};
use vstd::prelude::*;

verus! {

/// The address tried first.
pub const ADDR_PRIMARY: u8 = 0x46;

/// The address tried second.
pub const ADDR_SECONDARY: u8 = 0x74;

/// The path of the bus.
pub const I2C_DEVICE: &'static str = "/dev/i2c-1";

/// How an attempt at an address failed.
#[derive(Debug)]
pub enum AttemptFailure {
    Open { cause: String },
    SetAddress { address: u8, cause: String },
    Initialize { address: u8, cause: String },
}

/// Why no driver was found.
#[derive(Debug)]
pub enum ProbeError {
    /// The bus does not exist.
    DeviceMissing,
    /// No address worked; the failure is that of the last attempt.
    NotFound { last: AttemptFailure },
}

/// The advice that follows a failure to find the driver.
pub open spec fn advice() -> Seq<char> {
    "\n\nTroubleshooting:\n- Ensure I²C is enabled: sudo raspi-config\n- Check device exists: ls -l "@
        + I2C_DEVICE@
        + "\n- Verify permissions: sudo usermod -a -G i2c $USER\n- Check if Sense HAT is connected: i2cdetect -y 1"@
}

fn append_advice(text: &mut String)
    ensures
        final(text)@ == old(text)@ + advice(),
{
    text.append(
        "\n\nTroubleshooting:\n- Ensure I²C is enabled: sudo raspi-config\n- Check device exists: ls -l ",
    );
    text.append(I2C_DEVICE);
    text.append(
        "\n- Verify permissions: sudo usermod -a -G i2c $USER\n- Check if Sense HAT is connected: i2cdetect -y 1",
    );
    proof {
        assert(text@ =~= old(text)@ + advice());
    }
}

impl AttemptFailure {
    /// The report of the failure.
    pub open spec fn words(&self) -> Seq<char> {
        match self {
            AttemptFailure::Open { cause } => "Failed to open "@ + I2C_DEVICE@ + ": "@ + cause@,
            AttemptFailure::SetAddress { address, cause } => "Failed to set I²C slave address 0x"@
                + hex_byte(*address) + ": "@ + cause@,
            AttemptFailure::Initialize { address, cause } => "Initialization failed at 0x"@
                + hex_byte(*address) + ": "@ + cause@,
        }
    }

    /// The report of the failure.
    pub fn message(&self) -> (text: String)
        ensures
            text@ == self.words(),
    {
        match self {
            AttemptFailure::Open { cause } => {
                let mut text: String = String::from_str("Failed to open ");
                text.append(I2C_DEVICE);
                text.append(": ");
                text.append(cause.as_str());
                text
            },
            AttemptFailure::SetAddress { address, cause } => {
                let mut text: String = String::from_str("Failed to set I²C slave address 0x");
                append_hex(&mut text, *address);
                text.append(": ");
                text.append(cause.as_str());
                text
            },
            AttemptFailure::Initialize { address, cause } => {
                let mut text: String = String::from_str("Initialization failed at 0x");
                append_hex(&mut text, *address);
                text.append(": ");
                text.append(cause.as_str());
                text
            },
        }
    }
}

impl ProbeError {
    /// The report of the error.
    pub open spec fn words(&self) -> Seq<char> {
        match self {
            ProbeError::DeviceMissing => "I²C device "@ + I2C_DEVICE@
                + " not found. Is I²C enabled?"@,
            ProbeError::NotFound { last } =>
            "Failed to initialize Sense HAT LED matrix. Tried addresses 0x"@ + hex_byte(
                ADDR_PRIMARY,
            ) + " and 0x"@ + hex_byte(ADDR_SECONDARY) + ".\nLast error: "@ + last.words()
                + advice(),
        }
    }

    /// The report of the error.
    pub fn message(&self) -> (text: String)
        ensures
            text@ == self.words(),
    {
        match self {
            ProbeError::DeviceMissing => {
                let mut text: String = String::from_str("I²C device ");
                text.append(I2C_DEVICE);
                text.append(" not found. Is I²C enabled?");
                text
            },
            ProbeError::NotFound { last } => {
                let mut text: String = String::from_str(
                    "Failed to initialize Sense HAT LED matrix. Tried addresses 0x",
                );
                append_hex(&mut text, ADDR_PRIMARY);
                text.append(" and 0x");
                append_hex(&mut text, ADDR_SECONDARY);
                text.append(".\nLast error: ");
                text.append(last.message().as_str());
                append_advice(&mut text);
                text
            },
        }
    }

    /// The report with which the program ends.
    pub open spec fn final_words(&self) -> Seq<char> {
        "Could not initialize Sense HAT LED matrix: "@ + self.words() + advice()
    }

    /// The report with which the program ends.
    pub fn final_message(&self) -> (text: String)
        ensures
            text@ == self.final_words(),
    {
        let mut text: String = String::from_str("Could not initialize Sense HAT LED matrix: ");
        text.append(self.message().as_str());
        append_advice(&mut text);
        text
    }
}

/// The words that greet a driver found at an address.
pub open spec fn greeting_words(address: u8) -> Seq<char> {
    "Successfully initialized Sense HAT LED at I²C address 0x"@ + hex_byte(address)
}

/// The words that greet a driver found at an address.
pub fn greeting(address: u8) -> (text: String)
    ensures
        text@ == greeting_words(address),
{
    let mut text: String = String::from_str(
        "Successfully initialized Sense HAT LED at I²C address 0x",
    );
    append_hex(&mut text, address);
    text
}

/// What to do next to find the driver.
#[derive(Debug)]
pub enum ProbeAction {
    /// See whether the bus exists.
    CheckDevice,
    /// Open the bus.
    Open,
    /// Set the address of the opened bus.
    SetAddress { address: u8 },
    /// Bring up the chip behind the opened bus.
    Initialize { led: SenseHatLED },
    /// The driver has been found.
    Found { led: SenseHatLED },
    /// There is no driver.
    GiveUp { error: ProbeError },
}

/// Where the search stands: which answer it waits for.
#[derive(Clone, Copy, Debug, PartialEq, Eq, Structural)]
pub enum Probe {
    Begin,
    Checking,
    Opening { second: bool },
    Addressing { second: bool },
    Initializing { second: bool },
    Over,
}

/// The address of an attempt.
pub open spec fn address_of(second: bool) -> u8 {
    if second {
        ADDR_SECONDARY
    } else {
        ADDR_PRIMARY
    }
}

/// What follows a failed attempt.
pub open spec fn after_failure(second: bool, failure: AttemptFailure) -> (Probe, ProbeAction) {
    if second {
        (Probe::Over, ProbeAction::GiveUp { error: ProbeError::NotFound { last: failure } })
    } else {
        (Probe::Opening { second: true }, ProbeAction::Open)
    }
}

/// The next state and action, `failure` being the cause for which the action
/// before it failed, if it did.
pub open spec fn probe_step(state: Probe, failure: Option<String>) -> (Probe, ProbeAction) {
    match state {
        Probe::Begin => (Probe::Checking, ProbeAction::CheckDevice),
        Probe::Checking => match failure {
            Some(_) => (Probe::Over, ProbeAction::GiveUp { error: ProbeError::DeviceMissing }),
            None => (Probe::Opening { second: false }, ProbeAction::Open),
        },
        Probe::Opening { second } => match failure {
            Some(cause) => after_failure(second, AttemptFailure::Open { cause }),
            None => (
                Probe::Addressing { second },
                ProbeAction::SetAddress { address: address_of(second) },
            ),
        },
        Probe::Addressing { second } => match failure {
            Some(cause) => after_failure(
                second,
                AttemptFailure::SetAddress { address: address_of(second), cause },
            ),
            None => (
                Probe::Initializing { second },
                ProbeAction::Initialize { led: SenseHatLED { address: address_of(second) } },
            ),
        },
        Probe::Initializing { second } => match failure {
            Some(cause) => after_failure(
                second,
                AttemptFailure::Initialize { address: address_of(second), cause },
            ),
            None => (
                Probe::Over,
                ProbeAction::Found { led: SenseHatLED { address: address_of(second) } },
            ),
        },
        Probe::Over => (Probe::Over, arbitrary()),
    }
}

impl Probe {
    /// A search that has not begun.
    pub fn new() -> (probe: Probe)
        ensures
            probe == Probe::Begin,
    {
        Probe::Begin
    }

    fn try_next(&mut self, second: bool, failure: AttemptFailure) -> (action: ProbeAction)
        ensures
            (*final(self), action) == after_failure(second, failure),
    {
        if second {
            *self = Probe::Over;
            ProbeAction::GiveUp { error: ProbeError::NotFound { last: failure } }
        } else {
            *self = Probe::Opening { second: true };
            ProbeAction::Open
        }
    }

    /// The next action. `failure` says why the action before it failed, if it
    /// did.
    pub fn next(&mut self, failure: Option<String>) -> (action: ProbeAction)
        requires
            *old(self) != Probe::Over,
        ensures
            (*final(self), action) == probe_step(*old(self), failure),
    {
        match *self {
            Probe::Begin => {
                *self = Probe::Checking;
                ProbeAction::CheckDevice
            },
            Probe::Checking => match failure {
                Some(_) => {
                    *self = Probe::Over;
                    ProbeAction::GiveUp { error: ProbeError::DeviceMissing }
                },
                None => {
                    *self = Probe::Opening { second: false };
                    ProbeAction::Open
                },
            },
            Probe::Opening { second } => match failure {
                Some(cause) => self.try_next(second, AttemptFailure::Open { cause }),
                None => {
                    *self = Probe::Addressing { second };
                    ProbeAction::SetAddress { address: bus_address(second) }
                },
            },
            Probe::Addressing { second } => match failure {
                Some(cause) => {
                    let address: u8 = bus_address(second);
                    self.try_next(second, AttemptFailure::SetAddress { address, cause })
                },
                None => {
                    *self = Probe::Initializing { second };
                    let address: u8 = bus_address(second);
                    ProbeAction::Initialize { led: SenseHatLED { address } }
                },
            },
            Probe::Initializing { second } => match failure {
                Some(cause) => {
                    let address: u8 = bus_address(second);
                    self.try_next(second, AttemptFailure::Initialize { address, cause })
                },
                None => {
                    *self = Probe::Over;
                    let address: u8 = bus_address(second);
                    ProbeAction::Found { led: SenseHatLED { address } }
                },
            },
            Probe::Over => vstd::pervasive::unreached(),
        }
    }
}

fn bus_address(second: bool) -> (address: u8)
    ensures
        address == address_of(second),
{
    if second {
        ADDR_SECONDARY
    } else {
        ADDR_PRIMARY
    }
}

/// How an attempt at an address goes: it works, or fails at one of its three
/// steps.
pub ghost enum Attempt {
    Works,
    CannotOpen { cause: String },
    CannotSetAddress { cause: String },
    CannotInitialize { cause: String },
}

/// How the bus answers an action of an attempt.
pub open spec fn answer(attempt: Attempt, state: Probe) -> Option<String> {
    match (state, attempt) {
        (Probe::Opening { .. }, Attempt::CannotOpen { cause }) => Some(cause),
        (Probe::Addressing { .. }, Attempt::CannotSetAddress { cause }) => Some(cause),
        (Probe::Initializing { .. }, Attempt::CannotInitialize { cause }) => Some(cause),
        _ => None,
    }
}

/// How the environment answers the action of a state.
pub open spec fn reply(
    missing: Option<String>,
    first: Attempt,
    second: Attempt,
    state: Probe,
) -> Option<String> {
    match state {
        Probe::Checking => missing,
        Probe::Opening { second: s } => answer(if s { second } else { first }, state),
        Probe::Addressing { second: s } => answer(if s { second } else { first }, state),
        Probe::Initializing { second: s } => answer(if s { second } else { first }, state),
        _ => None,
    }
}

/// The number of actions that may still follow a state.
pub open spec fn rank(state: Probe) -> nat {
    match state {
        Probe::Begin => 8,
        Probe::Checking => 7,
        Probe::Opening { second } => if second { 3 } else { 6 },
        Probe::Addressing { second } => if second { 2 } else { 5 },
        Probe::Initializing { second } => if second { 1 } else { 4 },
        Probe::Over => 0,
    }
}

/// The last action of a search that goes on from `state`.
pub open spec fn outcome(
    missing: Option<String>,
    first: Attempt,
    second: Attempt,
    state: Probe,
) -> ProbeAction
    decreases rank(state),
{
    let (next, action) = probe_step(state, reply(missing, first, second, state));
    if next == Probe::Over || rank(next) >= rank(state) {
        action
    } else {
        outcome(missing, first, second, next)
    }
}

/// The failure of an attempt at an address.
pub open spec fn failure_at(attempt: Attempt, address: u8) -> AttemptFailure {
    match attempt {
        Attempt::CannotOpen { cause } => AttemptFailure::Open { cause },
        Attempt::CannotSetAddress { cause } => AttemptFailure::SetAddress { address, cause },
        Attempt::CannotInitialize { cause } => AttemptFailure::Initialize { address, cause },
        Attempt::Works => arbitrary(),
    }
}

/// The search finds the driver at the first address if it works there, else at
/// the second if it works there. Otherwise it gives up: at once where there is
/// no bus, else with the failure at the second address.
pub proof fn law_probe_outcome(missing: Option<String>, first: Attempt, second: Attempt)
    ensures
        outcome(missing, first, second, Probe::Begin) == (if missing is Some {
            ProbeAction::GiveUp { error: ProbeError::DeviceMissing }
        } else if first is Works {
            ProbeAction::Found { led: SenseHatLED { address: ADDR_PRIMARY } }
        } else if second is Works {
            ProbeAction::Found { led: SenseHatLED { address: ADDR_SECONDARY } }
        } else {
            ProbeAction::GiveUp {
                error: ProbeError::NotFound { last: failure_at(second, ADDR_SECONDARY) },
            }
        }),
{
    reveal_with_fuel(outcome, 9);
}

/// The first attempt is at address 0x46 and the second at 0x74: each opens the
/// bus, sets its address, brings up the chip there and finds it there. A first
/// attempt that fails, at whatever step, is followed by the second; a second one
/// that fails ends the search with its own failure.
pub proof fn law_attempts(second: bool, cause: String)
    ensures
        ({
            let address: u8 = if second {
                0x74
            } else {
                0x46
            };
            let led = SenseHatLED { address };
            let opening = Probe::Opening { second };
            let addressing = Probe::Addressing { second };
            let initializing = Probe::Initializing { second };
            &&& probe_step(Probe::Begin, None) == (Probe::Checking, ProbeAction::CheckDevice)
            &&& probe_step(Probe::Checking, None) == (
                Probe::Opening { second: false },
                ProbeAction::Open,
            )
            &&& probe_step(opening, None) == (addressing, ProbeAction::SetAddress { address })
            &&& probe_step(addressing, None) == (initializing, ProbeAction::Initialize { led })
            &&& probe_step(initializing, None) == (Probe::Over, ProbeAction::Found { led })
            &&& fails(opening, AttemptFailure::Open { cause }, second, cause)
            &&& fails(addressing, AttemptFailure::SetAddress { address, cause }, second, cause)
            &&& fails(initializing, AttemptFailure::Initialize { address, cause }, second, cause)
        }),
{
}

/// What a failure in `state` leads to.
pub open spec fn fails(state: Probe, failure: AttemptFailure, second: bool, cause: String) -> bool {
    let (next, action) = probe_step(state, Some(cause));
    if second {
        next == Probe::Over && action == (ProbeAction::GiveUp {
            error: ProbeError::NotFound { last: failure },
        })
    } else {
        next == (Probe::Opening { second: true }) && action == ProbeAction::Open
    }
}

/// The report of a failed attempt ends with the cause, before which stands the
/// address, where one was tried.
pub proof fn law_attempt_is_told(address: u8, cause: String)
    ensures
        ends_with((AttemptFailure::Open { cause }).words(), ": "@ + cause@),
        ends_with(
            (AttemptFailure::SetAddress { address, cause }).words(),
            "0x"@ + hex_byte(address) + ": "@ + cause@,
        ),
        ends_with(
            (AttemptFailure::Initialize { address, cause }).words(),
            "0x"@ + hex_byte(address) + ": "@ + cause@,
        ),
{
    reveal_strlit("0x");
    reveal_strlit(": ");
    reveal_strlit("Failed to open ");
    reveal_strlit("Failed to set I²C slave address 0x");
    reveal_strlit("Initialization failed at 0x");
    let opened = (AttemptFailure::Open { cause }).words();
    let set = (AttemptFailure::SetAddress { address, cause }).words();
    let brought = (AttemptFailure::Initialize { address, cause }).words();
    let short = ": "@ + cause@;
    let long = "0x"@ + hex_byte(address) + ": "@ + cause@;
    assert(opened.skip(opened.len() - short.len()) =~= short);
    assert(set.skip(set.len() - long.len()) =~= long);
    assert(brought.skip(brought.len() - long.len()) =~= long);
}

/// The report of a search that failed at both addresses tells the whole failure
/// of the last attempt and ends with the advice. The report with which the
/// program ends tells the whole report and the advice.
pub proof fn law_error_is_told(error: ProbeError)
    ensures
        error matches ProbeError::NotFound { last } ==> ends_with(
            error.words(),
            last.words() + advice(),
        ),
        ends_with(error.final_words(), error.words() + advice()),
{
    let tail = error.words() + advice();
    let told = error.final_words();
    assert(told.skip(told.len() - tail.len()) =~= tail);
    if let ProbeError::NotFound { last } = error {
        let end = last.words() + advice();
        let words = error.words();
        assert(words.skip(words.len() - end.len()) =~= end);
    }
}

/// The greeting ends with the address.
pub proof fn law_greeting_tells_address(address: u8)
    ensures
        ends_with(greeting_words(address), "0x"@ + hex_byte(address)),
{
    reveal_strlit("0x");
    reveal_strlit("Successfully initialized Sense HAT LED at I²C address 0x");
    let words = greeting_words(address);
    let end = "0x"@ + hex_byte(address);
    assert(words.skip(words.len() - end.len()) =~= end);
}

/// Every search ends: each step leaves fewer that may follow.
pub proof fn law_probe_ends(state: Probe, failure: Option<String>)
    requires
        state != Probe::Over,
    ensures
        rank(probe_step(state, failure).0) < rank(state),
        probe_step(state, failure).0 == Probe::Over <==> (probe_step(state, failure).1 is Found
            || probe_step(state, failure).1 is GiveUp),
{
}

} // verus!
