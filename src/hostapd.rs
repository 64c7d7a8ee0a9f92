//! The access-point controller: a fresh passphrase on every trigger, the
//! configuration file that carries it, and the order of the steps around it.
use rand::Rng;
use vstd::prelude::*;

verus! {

/// Characters of a generated passphrase.
pub const CHARSET: &'static str = "abcdefghijklmnopqrstuvwxyz";

/// Length of a generated passphrase.
pub const PASSWORD_LEN: usize = 10;

/// A passphrase as `pwgen` makes them: ten lower-case ASCII letters.
pub open spec fn valid_passphrase(p: Seq<char>) -> bool {
    &&& p.len() == PASSWORD_LEN
    &&& forall|i: int| 0 <= i < p.len() ==> 'a' <= #[trigger] p[i] <= 'z'
}

/// Relies on rand's `Rng::gen_range` on the thread-local generator: a value
/// in `[0, n)`; it panics when the range is empty, which `requires` excludes.
#[verifier::external_body]
fn random_below(n: usize) -> (r: usize)
    requires
        n > 0,
    ensures
        r < n,
{
    rand::thread_rng().gen_range(0, n)
}

/// The passphrase spelled by `draws`: letter `i` is the `draws[i]`-th
/// letter of `CHARSET`.
pub fn passphrase_from_draws(draws: &Vec<usize>) -> (r: String)
    requires
        forall|i: int| 0 <= i < draws@.len() ==> #[trigger] draws@[i] < 26,
    ensures
        r@.len() == draws@.len(),
        forall|i: int| 0 <= i < draws@.len() ==> #[trigger] r@[i] == CHARSET@[draws@[i] as int],
        forall|i: int| 0 <= i < draws@.len() ==> 'a' <= #[trigger] r@[i] <= 'z',
{
    proof {
        reveal_strlit("abcdefghijklmnopqrstuvwxyz");
    }
    let n = CHARSET.unicode_len();
    assert(forall|j: int| 0 <= j < n ==> 'a' <= #[trigger] CHARSET@[j] <= 'z');
    let mut r = String::new();
    let mut i: usize = 0;
    while i < draws.len()
        invariant
            n == CHARSET@.len(),
            n == 26,
            forall|j: int| 0 <= j < n ==> 'a' <= #[trigger] CHARSET@[j] <= 'z',
            forall|j: int| 0 <= j < draws@.len() ==> #[trigger] draws@[j] < 26,
            i <= draws@.len(),
            r@.len() == i,
            forall|j: int| 0 <= j < i ==> #[trigger] r@[j] == CHARSET@[draws@[j] as int],
        decreases draws@.len() - i,
    {
        let k = draws[i];
        let c = CHARSET.substring_char(k, k + 1);
        let ghost before = r@;
        r.append(c);
        assert(r@[i as int] == CHARSET@[k as int]);
        assert(forall|j: int| 0 <= j < i ==> r@[j] == before[j]);
        i = i + 1;
    }
    r
}

/// A fresh random passphrase: `PASSWORD_LEN` letters, each drawn uniformly
/// from `CHARSET`.
pub fn pwgen() -> (r: String)
    ensures
        valid_passphrase(r@),
{
    let mut draws: Vec<usize> = Vec::new();
    let mut i: usize = 0;
    while i < PASSWORD_LEN
        invariant
            i <= PASSWORD_LEN,
            draws@.len() == i,
            forall|j: int| 0 <= j < i ==> #[trigger] draws@[j] < 26,
        decreases PASSWORD_LEN - i,
    {
        draws.push(random_below(26));
        i = i + 1;
    }
    passphrase_from_draws(&draws)
}

/// The access-point configuration for `interface`, `ssid` and `password`.
pub open spec fn config_text(interface: Seq<char>, ssid: Seq<char>, password: Seq<char>) -> Seq<char> {
    CONFIG_HEAD@ + interface + CONFIG_BEFORE_SSID@ + ssid + CONFIG_BEFORE_PASSPHRASE@ + password
        + CONFIG_TAIL@
}

pub const CONFIG_HEAD: &'static str = "\ninterface=";

pub const CONFIG_BEFORE_SSID: &'static str = "

logger_syslog=-1
logger_syslog_level=2
logger_stdout=-1
logger_stdout_level=2

ctrl_interface=/run/hostapd
ctrl_interface_group=0

ssid=";

pub const CONFIG_BEFORE_PASSPHRASE: &'static str = "
country_code=DE
hw_mode=g
channel=11
beacon_int=100
dtim_period=2
max_num_sta=255
rts_threshold=-1
fragm_threshold=-1
macaddr_acl=0
auth_algs=3
ignore_broadcast_ssid=0

wmm_enabled=1
wmm_ac_bk_cwmin=4
wmm_ac_bk_cwmax=10
wmm_ac_bk_aifs=7
wmm_ac_bk_txop_limit=0
wmm_ac_bk_acm=0
wmm_ac_be_aifs=3
wmm_ac_be_cwmin=4
wmm_ac_be_cwmax=10
wmm_ac_be_txop_limit=0
wmm_ac_be_acm=0
wmm_ac_vi_aifs=2
wmm_ac_vi_cwmin=3
wmm_ac_vi_cwmax=4
wmm_ac_vi_txop_limit=94
wmm_ac_vi_acm=0
wmm_ac_vo_aifs=2
wmm_ac_vo_cwmin=2
wmm_ac_vo_cwmax=3
wmm_ac_vo_txop_limit=47
wmm_ac_vo_acm=0

eapol_key_index_workaround=0

eap_server=0

own_ip_addr=127.0.0.1

wpa=2
wpa_passphrase=";

pub const CONFIG_TAIL: &'static str = "
wpa_key_mgmt=WPA-PSK
rsn_pairwise=CCMP
";

/// Renders the access-point configuration file.
pub fn mkconfig(interface: &str, ssid: &str, password: &str) -> (r: String)
    ensures
        r@ == config_text(interface@, ssid@, password@),
{
    let mut r = CONFIG_HEAD.to_owned();
    r.append(interface);
    r.append(CONFIG_BEFORE_SSID);
    r.append(ssid);
    r.append(CONFIG_BEFORE_PASSPHRASE);
    r.append(password);
    r.append(CONFIG_TAIL);
    r
}

/// The line that announces the access point's identity.
pub open spec fn announcement(ssid: Seq<char>, password: Seq<char>) -> Seq<char> {
    ssid + " (pw: "@ + password + ")"@
}

/// Renders the announcement of an identity.
pub fn announce_line(ssid: &str, password: &str) -> (r: String)
    ensures
        r@ == announcement(ssid@, password@),
{
    let mut r = ssid.to_owned();
    r.append(" (pw: ");
    r.append(password);
    r.append(")");
    r
}

/// Where the controller stands: it waits for the outcome of the step named.
#[derive(Debug, Clone, Copy, PartialEq, Eq, Structural)]
pub enum HotspotState {
    /// The configuration file is being written.
    Configuring,
    /// The access-point service is being restarted.
    Restarting,
    /// The identity is being announced.
    Announcing,
    /// Waiting for the next trigger.
    Waiting,
    /// Done; no further step.
    Finished,
}

/// What happened to the step that the controller asked for.
#[derive(Debug, Clone, Copy, PartialEq, Eq, Structural)]
pub enum HotspotEvent {
    /// The configuration file was written, or not.
    ConfigWritten(bool),
    /// The restart request went through, or not.
    Restarted(bool),
    /// The announcement reached the display, or the display was closed.
    Announced(bool),
    /// A trigger arrived, or the trigger channel closed.
    Trigger(bool),
}

/// Why the controller stopped with an error.
#[derive(Debug, Clone, Copy, PartialEq, Eq, Structural)]
pub enum HotspotError {
    /// The configuration file could not be written.
    ConfigWrite,
    /// The display would not take the announcement.
    DisplayClosed,
    /// An event came that the current state does not wait for.
    OutOfOrder,
}

/// The next step for the caller to carry out.
#[derive(Debug, PartialEq)]
pub enum HotspotAction {
    /// Write this text as the access-point configuration file.
    WriteConfig(String),
    /// Ask the access-point service to restart.
    Restart,
    /// Send this line to the display.
    Announce(String),
    /// Wait for the next trigger.
    AwaitTrigger,
    /// Stop, with this outcome.
    Finish(Result<(), HotspotError>),
}

/// The state after `ev` in state `st`.
pub open spec fn next_state(st: HotspotState, ev: HotspotEvent) -> HotspotState {
    match (st, ev) {
        (HotspotState::Configuring, HotspotEvent::ConfigWritten(true)) => HotspotState::Restarting,
        (HotspotState::Restarting, HotspotEvent::Restarted(_)) => HotspotState::Announcing,
        (HotspotState::Announcing, HotspotEvent::Announced(true)) => HotspotState::Waiting,
        (HotspotState::Waiting, HotspotEvent::Trigger(true)) => HotspotState::Configuring,
        _ => HotspotState::Finished,
    }
}

/// Issues the access point's identity anew on each trigger.
pub struct HotspotController {
    pub interface: String,
    pub ssid: String,
    pub passphrase: String,
    pub state: HotspotState,
}

impl HotspotController {
    /// A controller for the access point on `interface` named `ssid`; it has
    /// issued no passphrase yet.
    pub fn new(interface: &str, ssid: &str) -> (r: Self)
        ensures
            r.interface@ == interface@,
            r.ssid@ == ssid@,
            r.passphrase@ == Seq::<char>::empty(),
            r.state == HotspotState::Configuring,
    {
        HotspotController {
            interface: interface.to_owned(),
            ssid: ssid.to_owned(),
            passphrase: String::new(),
            state: HotspotState::Configuring,
        }
    }

    /// Issues a fresh passphrase and asks for the configuration that carries it.
    pub fn start(&mut self) -> (a: HotspotAction)
        ensures
            final(self).interface == old(self).interface,
            final(self).ssid == old(self).ssid,
            final(self).state == HotspotState::Configuring,
            valid_passphrase(final(self).passphrase@),
            a matches HotspotAction::WriteConfig(c) && c@ == config_text(
                final(self).interface@,
                final(self).ssid@,
                final(self).passphrase@,
            ),
    {
        self.passphrase = pwgen();
        self.state = HotspotState::Configuring;
        HotspotAction::WriteConfig(mkconfig(self.interface.as_str(), self.ssid.as_str(), self.passphrase.as_str()))
    }

    /// Takes the outcome of the last step and says what to do next. A failed
    /// restart is no reason to stop; a failed write or a closed display is.
    /// A closed trigger channel ends the run successfully.
    pub fn step(&mut self, ev: HotspotEvent) -> (a: HotspotAction)
        ensures
            final(self).interface == old(self).interface,
            final(self).ssid == old(self).ssid,
            final(self).state == next_state(old(self).state, ev),
            match (old(self).state, ev) {
                (HotspotState::Configuring, HotspotEvent::ConfigWritten(true)) => a == HotspotAction::Restart
                    && final(self).passphrase == old(self).passphrase,
                (HotspotState::Configuring, HotspotEvent::ConfigWritten(false)) => a
                    == HotspotAction::Finish(Err(HotspotError::ConfigWrite)),
                (HotspotState::Restarting, HotspotEvent::Restarted(_)) => final(self).passphrase
                    == old(self).passphrase && (a matches HotspotAction::Announce(l) && l@ == announcement(
                    old(self).ssid@,
                    old(self).passphrase@,
                )),
                (HotspotState::Announcing, HotspotEvent::Announced(true)) => a == HotspotAction::AwaitTrigger
                    && final(self).passphrase == old(self).passphrase,
                (HotspotState::Announcing, HotspotEvent::Announced(false)) => a
                    == HotspotAction::Finish(Err(HotspotError::DisplayClosed)),
                (HotspotState::Waiting, HotspotEvent::Trigger(true)) => valid_passphrase(final(self).passphrase@)
                    && (a matches HotspotAction::WriteConfig(c) && c@ == config_text(
                    old(self).interface@,
                    old(self).ssid@,
                    final(self).passphrase@,
                )),
                (HotspotState::Waiting, HotspotEvent::Trigger(false)) => a == HotspotAction::Finish(Ok(())),
                _ => a == HotspotAction::Finish(Err(HotspotError::OutOfOrder)),
            },
    {
        match (self.state, ev) {
            (HotspotState::Configuring, HotspotEvent::ConfigWritten(true)) => {
                self.state = HotspotState::Restarting;
                HotspotAction::Restart
            },
            (HotspotState::Configuring, HotspotEvent::ConfigWritten(false)) => {
                self.state = HotspotState::Finished;
                HotspotAction::Finish(Err(HotspotError::ConfigWrite))
            },
            (HotspotState::Restarting, HotspotEvent::Restarted(_)) => {
                self.state = HotspotState::Announcing;
                HotspotAction::Announce(announce_line(self.ssid.as_str(), self.passphrase.as_str()))
            },
            (HotspotState::Announcing, HotspotEvent::Announced(true)) => {
                self.state = HotspotState::Waiting;
                HotspotAction::AwaitTrigger
            },
            (HotspotState::Announcing, HotspotEvent::Announced(false)) => {
                self.state = HotspotState::Finished;
                HotspotAction::Finish(Err(HotspotError::DisplayClosed))
            },
            (HotspotState::Waiting, HotspotEvent::Trigger(true)) => self.start(),
            (HotspotState::Waiting, HotspotEvent::Trigger(false)) => {
                self.state = HotspotState::Finished;
                HotspotAction::Finish(Ok(()))
            },
            _ => {
                self.state = HotspotState::Finished;
                HotspotAction::Finish(Err(HotspotError::OutOfOrder))
            },
        }
    }
}

} // verus!
