//! Device configuration, where LocalLink keeps its files, MAC addresses and
//! the list of trusted devices, and the pre-shared key.
use crate::external::{base64_decode, base64_decoding, base64_encode, base64_encoding, os_random_bytes, string_push};
use crate::ids::RandomError;
use crate::text::{clone_strings, lemma_filter_push, str_eq};
use vstd::prelude::*;
use vstd::string::StringExecFns;

verus! {

/// This device's identity, its optional pre-shared key, and which entry
/// points open when LocalLink starts.
pub struct Config {
    pub device_id: String,
    pub device_name: String,
    pub psk_b64: Option<String>,
    pub startup: StartupPreferences,
}

/// Which user entry points LocalLink opens when it starts.
#[derive(Clone, Copy, Debug, PartialEq, Eq, Structural)]
pub struct StartupPreferences {
    pub launch_ui: bool,
    pub use_tray: bool,
}

/// At least one entry point is on, so the user can always get back in.
pub open spec fn startup_valid(p: StartupPreferences) -> bool {
    p.launch_ui || p.use_tray
}

/// The default: open the UI, no tray.
pub open spec fn default_startup() -> StartupPreferences {
    StartupPreferences { launch_ui: true, use_tray: false }
}

/// The preferences after repair: both off becomes the default; any other
/// choice stays.
pub open spec fn repaired_startup(p: StartupPreferences) -> StartupPreferences {
    if startup_valid(p) {
        p
    } else {
        default_startup()
    }
}

impl Default for StartupPreferences {
    fn default() -> (p: Self)
        ensures
            p == default_startup(),
    {
        StartupPreferences { launch_ui: true, use_tray: false }
    }
}

/// Repairs startup preferences that leave no entry point on.
pub fn repair_startup(p: StartupPreferences) -> (r: StartupPreferences)
    ensures
        r == repaired_startup(p),
{
    if p.launch_ui || p.use_tray {
        p
    } else {
        StartupPreferences::default()
    }
}

/// Repaired startup preferences always leave an entry point on; repair
/// keeps valid preferences as they are, so repairing twice is repairing
/// once.
pub proof fn lemma_startup_repair(p: StartupPreferences)
    ensures
        startup_valid(repaired_startup(p)),
        startup_valid(p) ==> repaired_startup(p) == p,
        repaired_startup(repaired_startup(p)) == repaired_startup(p),
{
}

/// A device the user trusts, known by its MAC addresses.
pub struct TrustedDevice {
    pub name: String,
    pub macs: Vec<String>,
    pub device_id: Option<String>,
    pub blocked: bool,
}

pub struct TrustedDeviceView {
    pub name: Seq<char>,
    pub macs: Seq<Seq<char>>,
    pub device_id: Option<Seq<char>>,
    pub blocked: bool,
}

impl View for TrustedDevice {
    type V = TrustedDeviceView;

    open spec fn view(&self) -> TrustedDeviceView {
        TrustedDeviceView {
            name: self.name@,
            macs: self.macs.deep_view(),
            device_id: match self.device_id {
                Some(d) => Some(d@),
                None => None,
            },
            blocked: self.blocked,
        }
    }
}

impl Clone for TrustedDevice {
    fn clone(&self) -> (r: Self)
        ensures
            r@ == self@,
    {
        TrustedDevice {
            name: self.name.clone(),
            macs: clone_strings(&self.macs),
            device_id: match &self.device_id {
                Some(d) => Some(d.clone()),
                None => None,
            },
            blocked: self.blocked,
        }
    }
}

pub open spec fn devices_view(s: Seq<TrustedDevice>) -> Seq<TrustedDeviceView> {
    s.map_values(|d: TrustedDevice| d@)
}

/// Where LocalLink keeps its files.
pub struct AppPaths {
    pub app_dir: String,
    pub config_file: String,
    pub trusted_peers_file: String,
    pub trusted_devices_file: String,
    pub addons_dir: String,
    pub logs_dir: String,
    pub runtime_dir: String,
    pub state_dir: String,
    pub lock_file: String,
}

#[derive(Debug, Clone, Copy, PartialEq, Eq, Structural)]
pub enum ConfigError {
    InvalidMac,
    NoPsk,
    BadPskEncoding,
    BadPskLength,
}

/// The message that reports a configuration error.
pub open spec fn config_error_text(e: ConfigError) -> Seq<char> {
    match e {
        ConfigError::InvalidMac => "MAC address must contain 12 hex digits"@,
        ConfigError::NoPsk => "No PSK configured"@,
        ConfigError::BadPskEncoding => "PSK is not valid standard base64"@,
        ConfigError::BadPskLength => "PSK must decode to exactly 32 bytes"@,
    }
}

/// The message that reports a configuration error.
pub fn config_error_message(e: &ConfigError) -> (r: &'static str)
    ensures
        r@ == config_error_text(*e),
{
    match e {
        ConfigError::InvalidMac => "MAC address must contain 12 hex digits",
        ConfigError::NoPsk => "No PSK configured",
        ConfigError::BadPskEncoding => "PSK is not valid standard base64",
        ConfigError::BadPskLength => "PSK must decode to exactly 32 bytes",
    }
}

/// `base` with the relative component `name` appended: a separator goes
/// between them unless `base` is empty or already ends with one.
pub open spec fn joined(base: Seq<char>, sep: char, name: Seq<char>) -> Seq<char> {
    if base.len() == 0 {
        name
    } else if base.last() == sep {
        base + name
    } else {
        base.push(sep) + name
    }
}

/// Appends a relative component to a directory path.
pub fn join_path(base: &str, sep: char, name: &str) -> (r: String)
    ensures
        r@ == joined(base@, sep, name@),
{
    let n = base.unicode_len();
    if n == 0 {
        return name.to_owned();
    }
    let mut out = base.to_owned();
    if base.get_char(n - 1) != sep {
        string_push(&mut out, sep);
    }
    proof {
        assert(base@.last() == base@[n - 1]);
    }
    out.concat(name)
}

/// LocalLink's directory under the user's application data directory.
pub fn app_dir(appdata: &str, sep: char) -> (r: String)
    ensures
        r@ == joined(appdata@, sep, "LocalLink"@),
{
    join_path(appdata, sep, "LocalLink")
}

pub fn config_path(app_dir: &str, sep: char) -> (r: String)
    ensures
        r@ == joined(app_dir@, sep, "config.json"@),
{
    join_path(app_dir, sep, "config.json")
}

pub fn trusted_peers_path(app_dir: &str, sep: char) -> (r: String)
    ensures
        r@ == joined(app_dir@, sep, "trusted-peers.json"@),
{
    join_path(app_dir, sep, "trusted-peers.json")
}

pub fn trusted_devices_path(app_dir: &str, sep: char) -> (r: String)
    ensures
        r@ == joined(app_dir@, sep, "trusted-devices.json"@),
{
    join_path(app_dir, sep, "trusted-devices.json")
}

pub fn addons_dir(app_dir: &str, sep: char) -> (r: String)
    ensures
        r@ == joined(app_dir@, sep, "addons"@),
{
    join_path(app_dir, sep, "addons")
}

pub fn logs_dir(app_dir: &str, sep: char) -> (r: String)
    ensures
        r@ == joined(app_dir@, sep, "logs"@),
{
    join_path(app_dir, sep, "logs")
}

pub fn runtime_dir(app_dir: &str, sep: char) -> (r: String)
    ensures
        r@ == joined(app_dir@, sep, "runtime"@),
{
    join_path(app_dir, sep, "runtime")
}

pub fn state_dir(app_dir: &str, sep: char) -> (r: String)
    ensures
        r@ == joined(app_dir@, sep, "state"@),
{
    join_path(app_dir, sep, "state")
}

pub fn lock_path(app_dir: &str, sep: char) -> (r: String)
    ensures
        r@ == joined(joined(app_dir@, sep, "runtime"@), sep, "locallink-core.lock"@),
{
    let rt = runtime_dir(app_dir, sep);
    join_path(rt.as_str(), sep, "locallink-core.lock")
}

/// Where the space membership store is kept.
pub fn space_membership_path(app_dir: &str, sep: char) -> (r: String)
    ensures
        r@ == joined(joined(app_dir@, sep, "state"@), sep, "space-membership.json"@),
{
    let st = state_dir(app_dir, sep);
    join_path(st.as_str(), sep, "space-membership.json")
}

/// Every path LocalLink uses, under the application data directory.
pub fn app_paths(appdata: &str, sep: char) -> (r: AppPaths)
    ensures
        ({
            let a = joined(appdata@, sep, "LocalLink"@);
            &&& r.app_dir@ == a
            &&& r.config_file@ == joined(a, sep, "config.json"@)
            &&& r.trusted_peers_file@ == joined(a, sep, "trusted-peers.json"@)
            &&& r.trusted_devices_file@ == joined(a, sep, "trusted-devices.json"@)
            &&& r.addons_dir@ == joined(a, sep, "addons"@)
            &&& r.logs_dir@ == joined(a, sep, "logs"@)
            &&& r.runtime_dir@ == joined(a, sep, "runtime"@)
            &&& r.state_dir@ == joined(a, sep, "state"@)
            &&& r.lock_file@ == joined(joined(a, sep, "runtime"@), sep, "locallink-core.lock"@)
        }),
{
    let a = app_dir(appdata, sep);
    AppPaths {
        config_file: config_path(a.as_str(), sep),
        trusted_peers_file: trusted_peers_path(a.as_str(), sep),
        trusted_devices_file: trusted_devices_path(a.as_str(), sep),
        addons_dir: addons_dir(a.as_str(), sep),
        logs_dir: logs_dir(a.as_str(), sep),
        runtime_dir: runtime_dir(a.as_str(), sep),
        state_dir: state_dir(a.as_str(), sep),
        lock_file: lock_path(a.as_str(), sep),
        app_dir: a,
    }
}

/// An ASCII hexadecimal digit, as `char::is_ascii_hexdigit` has it.
pub open spec fn is_hex(c: char) -> bool {
    ('0' <= c && c <= '9') || ('a' <= c && c <= 'f') || ('A' <= c && c <= 'F')
}

/// `char::to_ascii_lowercase` on hexadecimal digits.
pub open spec fn hex_lower(c: char) -> char {
    if c == 'A' {
        'a'
    } else if c == 'B' {
        'b'
    } else if c == 'C' {
        'c'
    } else if c == 'D' {
        'd'
    } else if c == 'E' {
        'e'
    } else if c == 'F' {
        'f'
    } else {
        c
    }
}

fn hex_lower_char(c: char) -> (r: char)
    ensures
        r == hex_lower(c),
{
    if c == 'A' {
        'a'
    } else if c == 'B' {
        'b'
    } else if c == 'C' {
        'c'
    } else if c == 'D' {
        'd'
    } else if c == 'E' {
        'e'
    } else if c == 'F' {
        'f'
    } else {
        c
    }
}

/// The hexadecimal digits of a text, in order, in lower case.
pub open spec fn mac_digits(s: Seq<char>) -> Seq<char>
    decreases s.len(),
{
    if s.len() == 0 {
        Seq::empty()
    } else if is_hex(s.last()) {
        mac_digits(s.drop_last()).push(hex_lower(s.last()))
    } else {
        mac_digits(s.drop_last())
    }
}

/// The first `p` pairs of digits of `h`, joined by colons.
pub open spec fn colon_pairs(h: Seq<char>, p: nat) -> Seq<char>
    decreases p,
{
    if p == 0 {
        Seq::empty()
    } else if p == 1 {
        seq![h[0], h[1]]
    } else {
        colon_pairs(h, (p - 1) as nat) + seq![':', h[2 * p - 2], h[2 * p - 1]]
    }
}

/// The canonical form of a MAC address: its twelve hexadecimal digits in
/// lower case, in colon-separated pairs; empty when it does not have
/// exactly twelve.
pub open spec fn normalized_mac(s: Seq<char>) -> Seq<char> {
    let h = mac_digits(s);
    if h.len() == 12 {
        colon_pairs(h, 6)
    } else {
        Seq::empty()
    }
}

/// The canonical form of a MAC address, or an empty string.
pub fn normalize_mac(mac: &str) -> (r: String)
    ensures
        r@ == normalized_mac(mac@),
{
    let n = mac.unicode_len();
    let mut digits: Vec<char> = Vec::new();
    let mut i: usize = 0;
    while i < n
        invariant
            n == mac@.len(),
            i <= n,
            digits@ == mac_digits(mac@.take(i as int)),
        decreases n - i,
    {
        let c = mac.get_char(i);
        proof {
            assert(mac@.take(i + 1).drop_last() == mac@.take(i as int));
            assert(mac@.take(i + 1).last() == c);
        }
        if ('0' <= c && c <= '9') || ('a' <= c && c <= 'f') {
            digits.push(c);
        } else if 'A' <= c && c <= 'F' {
            digits.push(hex_lower_char(c));
        }
        i = i + 1;
    }
    proof {
        assert(mac@.take(n as int) == mac@);
    }
    let mut out = String::new();
    if digits.len() != 12 {
        proof {
            assert(out@ =~= normalized_mac(mac@));
        }
        return out;
    }
    let mut p: usize = 0;
    while p < 6
        invariant
            digits@.len() == 12,
            p <= 6,
            out@ == colon_pairs(digits@, p as nat),
        decreases 6 - p,
    {
        if p > 0 {
            string_push(&mut out, ':');
        }
        string_push(&mut out, digits[2 * p]);
        string_push(&mut out, digits[2 * p + 1]);
        proof {
            if p == 0 {
                assert(out@ =~= colon_pairs(digits@, 1));
            } else {
                assert(out@ =~= colon_pairs(digits@, (p + 1) as nat));
            }
        }
        p = p + 1;
    }
    out
}


/// The canonical forms of some MAC addresses.
pub open spec fn normalized_macs(macs: Seq<Seq<char>>) -> Seq<Seq<char>> {
    macs.map_values(|m: Seq<char>| normalized_mac(m))
}

/// Some address of `macs` has one of the canonical forms `ns`.
pub open spec fn matches_any(macs: Seq<Seq<char>>, ns: Seq<Seq<char>>) -> bool {
    exists|i: int| 0 <= i < macs.len() && ns.contains(#[trigger] normalized_mac(macs[i]))
}

/// A device that is not blocked and has one of the addresses `ns`.
pub open spec fn trusted_match(d: TrustedDeviceView, ns: Seq<Seq<char>>) -> bool {
    !d.blocked && matches_any(d.macs, ns)
}

/// The index of the first device satisfying `p`.
pub open spec fn first_device(devs: Seq<TrustedDeviceView>, p: spec_fn(TrustedDeviceView) -> bool) -> Option<int>
    decreases devs.len(),
{
    if devs.len() == 0 {
        None
    } else {
        match first_device(devs.drop_last(), p) {
            Some(i) => Some(i),
            None => if p(devs.last()) {
                Some(devs.len() - 1)
            } else {
                None
            },
        }
    }
}

proof fn lemma_first_device(devs: Seq<TrustedDeviceView>, p: spec_fn(TrustedDeviceView) -> bool)
    ensures
        first_device(devs, p) matches Some(i) ==> 0 <= i < devs.len() && p(devs[i]) && forall|j: int| 0 <= j < i ==> !p(#[trigger] devs[j]),
        first_device(devs, p) is None ==> forall|j: int| 0 <= j < devs.len() ==> !p(#[trigger] devs[j]),
    decreases devs.len(),
{
    if devs.len() > 0 {
        lemma_first_device(devs.drop_last(), p);
        assert forall|j: int| 0 <= j < devs.len() - 1 implies devs[j] == devs.drop_last()[j] by {}
    }
}

/// The canonical forms of the given addresses, in order.
fn normalize_all(macs: &Vec<String>) -> (r: Vec<String>)
    ensures
        r.deep_view() == normalized_macs(macs.deep_view()),
{
    let mut out: Vec<String> = Vec::new();
    let mut i: usize = 0;
    while i < macs.len()
        invariant
            i <= macs@.len(),
            out.deep_view() == normalized_macs(macs.deep_view().take(i as int)),
        decreases macs@.len() - i,
    {
        let ghost before = out.deep_view();
        out.push(normalize_mac(macs[i].as_str()));
        proof {
            assert(macs.deep_view()[i as int] == macs@[i as int]@);
            assert(macs.deep_view().take(i + 1) =~= macs.deep_view().take(i as int).push(macs@[i as int]@));
            assert(out.deep_view() =~= before.push(normalized_mac(macs@[i as int]@)));
            assert(normalized_macs(macs.deep_view().take(i + 1)) =~= normalized_macs(macs.deep_view().take(i as int)).push(
                normalized_mac(macs@[i as int]@),
            ));
        }
        i = i + 1;
    }
    proof {
        assert(macs.deep_view().take(macs@.len() as int) == macs.deep_view());
    }
    out
}

/// Whether some address of `macs` has one of the canonical forms `ns`.
pub fn any_mac_matches(macs: &Vec<String>, ns: &Vec<String>) -> (r: bool)
    ensures
        r == matches_any(macs.deep_view(), ns.deep_view()),
{
    let mut i: usize = 0;
    while i < macs.len()
        invariant
            i <= macs@.len(),
            forall|j: int| 0 <= j < i ==> !ns.deep_view().contains(#[trigger] normalized_mac(macs.deep_view()[j])),
        decreases macs@.len() - i,
    {
        let m = normalize_mac(macs[i].as_str());
        proof {
            assert(macs.deep_view()[i as int] == macs@[i as int]@);
        }
        if crate::text::contains_str(ns, m.as_str()) {
            return true;
        }
        i = i + 1;
    }
    false
}

/// The trusted devices with their addresses in canonical form and those
/// that are not addresses dropped.
pub open spec fn devices_normalized(devs: Seq<TrustedDeviceView>) -> Seq<TrustedDeviceView> {
    devs.map_values(
        |d: TrustedDeviceView|
            TrustedDeviceView {
                macs: normalized_macs(d.macs).filter(|m: Seq<char>| m.len() > 0),
                ..d
            },
    )
}

/// Brings the addresses of loaded trusted devices into canonical form and
/// drops those that are not addresses.
pub fn normalize_trusted_devices(devices: Vec<TrustedDevice>) -> (r: Vec<TrustedDevice>)
    ensures
        devices_view(r@) == devices_normalized(devices_view(devices@)),
{
    let ghost src = devices_view(devices@);
    let mut out: Vec<TrustedDevice> = Vec::new();
    let mut i: usize = 0;
    while i < devices.len()
        invariant
            src == devices_view(devices@),
            i <= devices@.len(),
            devices_view(out@) == devices_normalized(src.take(i as int)),
        decreases devices@.len() - i,
    {
        let d = &devices[i];
        let all = normalize_all(&d.macs);
        let mut macs: Vec<String> = Vec::new();
        let mut j: usize = 0;
        while j < all.len()
            invariant
                j <= all@.len(),
                macs.deep_view() == all.deep_view().take(j as int).filter(|m: Seq<char>| m.len() > 0),
            decreases all@.len() - j,
        {
            proof {
                assert(all.deep_view().take(j + 1) == all.deep_view().take(j as int).push(all@[j as int]@));
                lemma_filter_push(all.deep_view().take(j as int), |m: Seq<char>| m.len() > 0, all@[j as int]@);
            }
            if !all[j].as_str().is_empty() {
                let ghost before = macs.deep_view();
                macs.push(all[j].clone());
                proof {
                    assert(macs.deep_view() =~= before.push(all@[j as int]@));
                }
            }
            j = j + 1;
        }
        proof {
            assert(all.deep_view().take(all@.len() as int) == all.deep_view());
        }
        let nd = TrustedDevice {
            name: d.name.clone(),
            macs,
            device_id: match &d.device_id {
                Some(x) => Some(x.clone()),
                None => None,
            },
            blocked: d.blocked,
        };
        let ghost before = devices_view(out@);
        out.push(nd);
        proof {
            assert(src[i as int] == d@);
            assert(src.take(i + 1) =~= src.take(i as int).push(d@));
            assert(devices_view(out@) =~= before.push(nd@));
            assert(devices_normalized(src.take(i + 1)) =~= devices_normalized(src.take(i as int)).push(nd@));
        }
        i = i + 1;
    }
    proof {
        assert(src.take(devices@.len() as int) == src);
    }
    out
}

/// A device with one of the addresses `ns`, and not blocked if
/// `unblocked_only`.
pub open spec fn device_pred(ns: Seq<Seq<char>>, unblocked_only: bool) -> spec_fn(TrustedDeviceView) -> bool {
    |d: TrustedDeviceView| (!unblocked_only || !d.blocked) && matches_any(d.macs, ns)
}

/// The index of the first device satisfying `matches_any(_, ns)`, and
/// optionally only among those not blocked.
fn find_device(devices: &Vec<TrustedDevice>, ns: &Vec<String>, unblocked_only: bool) -> (r: Option<usize>)
    ensures
        match r {
            Some(i) => first_device(devices_view(devices@), device_pred(ns.deep_view(), unblocked_only)) == Some(i as int),
            None => first_device(devices_view(devices@), device_pred(ns.deep_view(), unblocked_only)) is None,
        },
{
    let ghost p = device_pred(ns.deep_view(), unblocked_only);
    let ghost dv = devices_view(devices@);
    let mut i: usize = 0;
    while i < devices.len()
        invariant
            dv == devices_view(devices@),
            p == device_pred(ns.deep_view(), unblocked_only),
            i <= dv.len(),
            first_device(dv.take(i as int), p) is None,
        decreases dv.len() - i,
    {
        let d = &devices[i];
        proof {
            assert(dv[i as int] == d@);
            assert(dv.take(i + 1).drop_last() == dv.take(i as int));
            assert(dv.take(i + 1).last() == d@);
        }
        let hit = (!unblocked_only || !d.blocked) && any_mac_matches(&d.macs, ns);
        if hit {
            proof {
                assert(first_device(dv.take(i + 1), p) == Some(i as int));
                lemma_first_device_prefix(dv, p, i + 1);
            }
            return Some(i);
        }
        i = i + 1;
    }
    proof {
        assert(dv.take(dv.len() as int) == dv);
    }
    None
}

proof fn lemma_first_device_prefix(devs: Seq<TrustedDeviceView>, p: spec_fn(TrustedDeviceView) -> bool, n: int)
    requires
        0 <= n <= devs.len(),
        first_device(devs.take(n), p) is Some,
    ensures
        first_device(devs, p) == first_device(devs.take(n), p),
    decreases devs.len() - n,
{
    if n < devs.len() {
        assert(devs.take(n + 1).drop_last() == devs.take(n));
        lemma_first_device_prefix(devs, p, n + 1);
    } else {
        assert(devs.take(n) == devs);
    }
}

/// The devices after trusting the canonical address `m` under `name`: the
/// first device that has it is renamed and unblocked, or else a new device
/// with just that address is added.
pub open spec fn devices_added(dv: Seq<TrustedDeviceView>, name: Seq<char>, m: Seq<char>) -> Seq<TrustedDeviceView> {
    match first_device(dv, device_pred(seq![m], false)) {
        Some(i) => dv.update(i, TrustedDeviceView { name, blocked: false, ..dv[i] }),
        None => dv.push(TrustedDeviceView { name, macs: seq![m], device_id: None, blocked: false }),
    }
}

/// Trusts a device under `name` with the address `mac`: the first device
/// that already has the address is renamed and unblocked, or else a new
/// device is added. The address must have twelve hexadecimal digits.
pub fn add_trusted_device(devices: Vec<TrustedDevice>, name: String, mac: String) -> (r: Result<Vec<TrustedDevice>, ConfigError>)
    ensures
        ({
            let m = normalized_mac(mac@);
            let dv = devices_view(devices@);
            if m.len() == 0 {
                r == Err::<Vec<TrustedDevice>, ConfigError>(ConfigError::InvalidMac)
            } else {
                r is Ok && devices_view(r->Ok_0@) == devices_added(dv, name@, m)
            }
        }),
{
    let m = normalize_mac(mac.as_str());
    if m.as_str().is_empty() {
        return Err(ConfigError::InvalidMac);
    }
    let mut devices = devices;
    let ghost dv = devices_view(devices@);
    let mut ns: Vec<String> = Vec::new();
    ns.push(m.clone());
    proof {
        assert(ns.deep_view() =~= seq![m@]);
    }
    let found = find_device(&devices, &ns, false);
    proof {
        lemma_first_device(dv, device_pred(seq![m@], false));
        assert(device_pred(ns.deep_view(), false) == device_pred(seq![m@], false));
    }
    match found {
        Some(i) => {
            let ghost nv = name@;
            let mut d = devices.remove(i);
            d.name = name;
            d.blocked = false;
            proof {
                assert(d@.name == nv);
            }
            devices.insert(i, d);
            proof {
                assert(first_device(dv, device_pred(seq![m@], false)) == Some(i as int));
                assert(devices_view(devices@) =~= dv.update(i as int, TrustedDeviceView { name: nv, blocked: false, ..dv[i as int] }));
            }
            Ok(devices)
        },
        None => {
            let mut macs: Vec<String> = Vec::new();
            macs.push(m);
            devices.push(TrustedDevice { name, macs, device_id: None, blocked: false });
            proof {
                assert(devices_view(devices@) =~= dv.push(TrustedDeviceView { name: name@, macs: seq![m@], device_id: None, blocked: false }));
            }
            Ok(devices)
        },
    }
}


/// A device without the addresses whose canonical form is `m`.
pub open spec fn without_mac(d: TrustedDeviceView, m: Seq<char>) -> TrustedDeviceView {
    TrustedDeviceView { macs: d.macs.filter(|x: Seq<char>| normalized_mac(x) != m), ..d }
}

/// The devices after removing the address `m` everywhere: devices left
/// without addresses are dropped.
pub open spec fn devices_without_mac(devs: Seq<TrustedDeviceView>, m: Seq<char>) -> Seq<TrustedDeviceView> {
    devs.map_values(|d: TrustedDeviceView| without_mac(d, m)).filter(|d: TrustedDeviceView| d.macs.len() > 0)
}

/// Removes an address from every trusted device, in canonical form, and
/// drops devices that have no address left.
pub fn remove_trusted_mac(devices: &Vec<TrustedDevice>, mac: &str) -> (r: Vec<TrustedDevice>)
    ensures
        devices_view(r@) == devices_without_mac(devices_view(devices@), normalized_mac(mac@)),
{
    let m = normalize_mac(mac);
    let ghost mv = m@;
    let ghost src = devices_view(devices@);
    let ghost mapped = src.map_values(|d: TrustedDeviceView| without_mac(d, mv));
    let mut out: Vec<TrustedDevice> = Vec::new();
    let mut i: usize = 0;
    while i < devices.len()
        invariant
            src == devices_view(devices@),
            mv == m@,
            mapped == src.map_values(|d: TrustedDeviceView| without_mac(d, mv)),
            i <= src.len(),
            devices_view(out@) == mapped.take(i as int).filter(|d: TrustedDeviceView| d.macs.len() > 0),
        decreases src.len() - i,
    {
        let d = &devices[i];
        let mut macs: Vec<String> = Vec::new();
        let mut j: usize = 0;
        while j < d.macs.len()
            invariant
                mv == m@,
                j <= d.macs@.len(),
                macs.deep_view() == d.macs.deep_view().take(j as int).filter(|x: Seq<char>| normalized_mac(x) != mv),
            decreases d.macs@.len() - j,
        {
            let x = &d.macs[j];
            proof {
                assert(d.macs.deep_view()[j as int] == x@);
                assert(d.macs.deep_view().take(j + 1) == d.macs.deep_view().take(j as int).push(x@));
                lemma_filter_push(d.macs.deep_view().take(j as int), |x: Seq<char>| normalized_mac(x) != mv, x@);
            }
            let nx = normalize_mac(x.as_str());
            if !str_eq(nx.as_str(), m.as_str()) {
                let ghost before = macs.deep_view();
                macs.push(x.clone());
                proof {
                    assert(macs.deep_view() =~= before.push(x@));
                }
            }
            j = j + 1;
        }
        proof {
            assert(d.macs.deep_view().take(d.macs@.len() as int) == d.macs.deep_view());
            assert(src[i as int] == d@);
            assert(mapped[i as int] == without_mac(d@, mv));
            assert(mapped.take(i + 1) == mapped.take(i as int).push(mapped[i as int]));
            lemma_filter_push(mapped.take(i as int), |d: TrustedDeviceView| d.macs.len() > 0, mapped[i as int]);
        }
        if macs.len() > 0 {
            let nd = TrustedDevice {
                name: d.name.clone(),
                macs,
                device_id: match &d.device_id {
                    Some(x) => Some(x.clone()),
                    None => None,
                },
                blocked: d.blocked,
            };
            let ghost before = devices_view(out@);
            out.push(nd);
            proof {
                assert(nd@ == mapped[i as int]);
                assert(devices_view(out@) =~= before.push(nd@));
            }
        }
        i = i + 1;
    }
    proof {
        assert(mapped.take(src.len() as int) == mapped);
    }
    out
}

/// The devices with `device_id` set on each that has one of the canonical
/// addresses `ns`.
pub open spec fn devices_with_id(devs: Seq<TrustedDeviceView>, ns: Seq<Seq<char>>, id: Seq<char>) -> Seq<TrustedDeviceView> {
    devs.map_values(
        |d: TrustedDeviceView|
            if matches_any(d.macs, ns) {
                TrustedDeviceView { device_id: Some(id), ..d }
            } else {
                d
            },
    )
}

/// Records `device_id` on every trusted device that has one of the given
/// addresses. Returns the devices and whether any changed, that is whether
/// they need saving.
pub fn register_device_id_for_macs(devices: &Vec<TrustedDevice>, macs: &Vec<String>, device_id: &str) -> (r: (
    Vec<TrustedDevice>,
    bool,
))
    ensures
        ({
            let ns = normalized_macs(macs.deep_view());
            &&& devices_view(r.0@) == devices_with_id(devices_view(devices@), ns, device_id@)
            &&& r.1 == exists|i: int| 0 <= i < devices@.len() && #[trigger] matches_any(devices_view(devices@)[i].macs, ns)
        }),
{
    let ns = normalize_all(macs);
    let ghost nv = ns.deep_view();
    let ghost src = devices_view(devices@);
    let mut out: Vec<TrustedDevice> = Vec::new();
    let mut changed = false;
    let mut i: usize = 0;
    while i < devices.len()
        invariant
            src == devices_view(devices@),
            nv == ns.deep_view(),
            i <= src.len(),
            devices_view(out@) == devices_with_id(src.take(i as int), nv, device_id@),
            changed == exists|k: int| 0 <= k < i && #[trigger] matches_any(src[k].macs, nv),
        decreases src.len() - i,
    {
        let d = &devices[i];
        let hit = any_mac_matches(&d.macs, &ns);
        let nd = TrustedDevice {
            name: d.name.clone(),
            macs: clone_strings(&d.macs),
            device_id: if hit {
                Some(device_id.to_owned())
            } else {
                match &d.device_id {
                    Some(x) => Some(x.clone()),
                    None => None,
                }
            },
            blocked: d.blocked,
        };
        let ghost before = devices_view(out@);
        out.push(nd);
        proof {
            assert(src[i as int] == d@);
            assert(src.take(i + 1) =~= src.take(i as int).push(d@));
            assert(devices_view(out@) =~= before.push(nd@));
            assert(devices_with_id(src.take(i + 1), nv, device_id@) =~= devices_with_id(src.take(i as int), nv, device_id@).push(nd@));
        }
        proof {
            assert(hit == matches_any(src[i as int].macs, nv));
        }
        if hit {
            changed = true;
        }
        proof {
            if changed {
                if hit {
                    assert(matches_any(src[i as int].macs, nv));
                }
            } else {
                assert forall|k: int| 0 <= k < i + 1 implies !#[trigger] matches_any(src[k].macs, nv) by {}
            }
        }
        i = i + 1;
    }
    proof {
        assert(src.take(src.len() as int) == src);
    }
    (out, changed)
}

/// Whether one of the addresses belongs to a trusted device that is not
/// blocked.
pub fn mac_is_trusted(devices: &Vec<TrustedDevice>, macs: &Vec<String>) -> (r: bool)
    ensures
        r == exists|i: int|
            0 <= i < devices@.len() && #[trigger] trusted_match(
                devices_view(devices@)[i],
                normalized_macs(macs.deep_view()),
            ),
{
    let ns = normalize_all(macs);
    let found = find_device(devices, &ns, true);
    proof {
        let dv = devices_view(devices@);
        let p = device_pred(ns.deep_view(), true);
        lemma_first_device(dv, p);
        if found is None {
            assert forall|i: int| 0 <= i < devices@.len() implies !#[trigger] trusted_match(dv[i], ns.deep_view()) by {
                assert(!p(dv[i]));
            }
        } else {
            let i = found->Some_0 as int;
            assert(p(dv[i]));
            assert(trusted_match(dv[i], ns.deep_view()));
        }
    }
    found.is_some()
}

/// The name of the first trusted device, not blocked, with one of the
/// addresses.
pub fn trusted_name_for_macs(devices: &Vec<TrustedDevice>, macs: &Vec<String>) -> (r: Option<String>)
    ensures
        match first_device(devices_view(devices@), device_pred(normalized_macs(macs.deep_view()), true)) {
            Some(i) => r matches Some(n) && n@ == devices_view(devices@)[i].name,
            None => r is None,
        },
{
    let ns = normalize_all(macs);
    match find_device(devices, &ns, true) {
        Some(i) => {
            proof {
                lemma_first_device(devices_view(devices@), device_pred(ns.deep_view(), true));
                assert(devices_view(devices@)[i as int] == devices@[i as int]@);
            }
            Some(devices[i].name.clone())
        },
        None => None,
    }
}

/// A fresh pre-shared key: 32 random bytes in standard base64, or the error
/// when the random source fails. Which bytes is chance.
pub fn generate_psk_b64() -> (r: Result<String, RandomError>)
    ensures
        r matches Ok(s) ==> exists|key: Seq<u8>| key.len() == 32 && #[trigger] base64_encoding(key) == s@,
        r matches Err(e) ==> e == RandomError::Unavailable,
{
    match os_random_bytes(32) {
        Ok(key) => Ok(base64_encode(key.as_slice())),
        Err(_) => Err(RandomError::Unavailable),
    }
}

/// Checks that a pre-shared key is standard base64 of exactly 32 bytes.
pub fn validate_psk_b64(psk: &str) -> (r: Result<(), ConfigError>)
    ensures
        match base64_decoding(psk@) {
            None => r == Err::<(), ConfigError>(ConfigError::BadPskEncoding),
            Some(b) => if b.len() == 32 {
                r is Ok
            } else {
                r == Err::<(), ConfigError>(ConfigError::BadPskLength)
            },
        },
{
    match base64_decode(psk) {
        Err(_) => Err(ConfigError::BadPskEncoding),
        Ok(v) => if v.len() == 32 {
            Ok(())
        } else {
            Err(ConfigError::BadPskLength)
        },
    }
}

/// The 32 key bytes of the configured pre-shared key.
pub fn psk_bytes(cfg: &Config) -> (r: Result<Vec<u8>, ConfigError>)
    ensures
        match cfg.psk_b64 {
            None => r == Err::<Vec<u8>, ConfigError>(ConfigError::NoPsk),
            Some(p) => match base64_decoding(p@) {
                None => r == Err::<Vec<u8>, ConfigError>(ConfigError::BadPskEncoding),
                Some(b) => if b.len() == 32 {
                    r matches Ok(v) && v@ == b
                } else {
                    r == Err::<Vec<u8>, ConfigError>(ConfigError::BadPskLength)
                },
            },
        },
{
    let psk = match &cfg.psk_b64 {
        Some(p) => p,
        None => {
            return Err(ConfigError::NoPsk);
        },
    };
    match base64_decode(psk.as_str()) {
        Err(_) => Err(ConfigError::BadPskEncoding),
        Ok(v) => if v.len() == 32 {
            Ok(v)
        } else {
            Err(ConfigError::BadPskLength)
        },
    }
}

/// Whether one of the canonical addresses `ns` belongs to a device that is
/// not blocked.
pub open spec fn trusted_by(devs: Seq<TrustedDeviceView>, ns: Seq<Seq<char>>) -> bool {
    exists|i: int| 0 <= i < devs.len() && #[trigger] trusted_match(devs[i], ns)
}

proof fn lemma_mac_digits_push(s: Seq<char>, c: char)
    ensures
        mac_digits(s.push(c)) == if is_hex(c) {
            mac_digits(s).push(hex_lower(c))
        } else {
            mac_digits(s)
        },
{
    assert(s.push(c).drop_last() =~= s);
}

proof fn lemma_mac_digits_of_pairs(h: Seq<char>, p: nat)
    requires
        2 * p <= h.len(),
        forall|i: int| 0 <= i < h.len() ==> is_hex(#[trigger] h[i]) && hex_lower(h[i]) == h[i],
    ensures
        mac_digits(colon_pairs(h, p)) == h.take(2 * p as int),
    decreases p,
{
    if p == 0 {
        assert(mac_digits(Seq::<char>::empty()) == Seq::<char>::empty());
        assert(h.take(0) =~= Seq::<char>::empty());
    } else if p == 1 {
        let x = seq![h[0], h[1]];
        lemma_mac_digits_push(seq![h[0]], h[1]);
        assert(seq![h[0]].push(h[1]) =~= x);
        lemma_mac_digits_push(Seq::<char>::empty(), h[0]);
        assert(Seq::<char>::empty().push(h[0]) =~= seq![h[0]]);
        assert(h.take(2) =~= x);
    } else {
        lemma_mac_digits_of_pairs(h, (p - 1) as nat);
        let front = colon_pairs(h, (p - 1) as nat);
        let a = h[2 * p - 2];
        let b = h[2 * p - 1];
        lemma_mac_digits_push(front, ':');
        lemma_mac_digits_push(front.push(':'), a);
        lemma_mac_digits_push(front.push(':').push(a), b);
        assert(front + seq![':', a, b] =~= front.push(':').push(a).push(b));
        assert(h.take(2 * p as int) =~= h.take(2 * (p - 1) as int).push(a).push(b));
    }
}

proof fn lemma_mac_digits_lower_hex(s: Seq<char>)
    ensures
        forall|i: int| 0 <= i < mac_digits(s).len() ==> is_hex(#[trigger] mac_digits(s)[i]) && hex_lower(
            mac_digits(s)[i],
        ) == mac_digits(s)[i],
    decreases s.len(),
{
    if s.len() > 0 {
        let prev = mac_digits(s.drop_last());
        lemma_mac_digits_lower_hex(s.drop_last());
        let c = s.last();
        if is_hex(c) {
            assert(is_hex(hex_lower(c)) && hex_lower(hex_lower(c)) == hex_lower(c));
            assert forall|i: int| 0 <= i < mac_digits(s).len() implies is_hex(#[trigger] mac_digits(s)[i])
                && hex_lower(mac_digits(s)[i]) == mac_digits(s)[i] by {
                if i < prev.len() {
                    assert(mac_digits(s)[i] == prev[i]);
                }
            }
        }
    }
}

/// A canonical address is its own canonical form.
pub proof fn lemma_normalized_mac_idempotent(s: Seq<char>)
    requires
        normalized_mac(s).len() > 0,
    ensures
        normalized_mac(normalized_mac(s)) == normalized_mac(s),
{
    let h = mac_digits(s);
    lemma_mac_digits_lower_hex(s);
    lemma_mac_digits_of_pairs(h, 6);
    assert(h.take(12) =~= h);
}

/// Trusting an address makes it trusted: once `add_trusted_device` accepts
/// an address, `mac_is_trusted` finds it.
pub proof fn lemma_added_mac_is_trusted(devs: Seq<TrustedDeviceView>, name: Seq<char>, mac: Seq<char>)
    requires
        normalized_mac(mac).len() > 0,
    ensures
        trusted_by(devices_added(devs, name, normalized_mac(mac)), normalized_macs(seq![mac])),
{
    let m = normalized_mac(mac);
    let ns = normalized_macs(seq![mac]);
    assert(ns =~= seq![m]);
    let after = devices_added(devs, name, m);
    lemma_first_device(devs, device_pred(seq![m], false));
    match first_device(devs, device_pred(seq![m], false)) {
        Some(i) => {
            assert(after[i].macs == devs[i].macs);
            assert(matches_any(devs[i].macs, seq![m]));
            assert(trusted_match(after[i], ns));
        },
        None => {
            let i = devs.len() as int;
            lemma_normalized_mac_idempotent(mac);
            assert(after[i].macs == seq![m]);
            assert(seq![m].contains(normalized_mac(after[i].macs[0])));
            assert(trusted_match(after[i], ns));
        },
    }
}

/// Removing an address untrusts it: after `remove_trusted_mac`, no device
/// has it any more.
pub proof fn lemma_removed_mac_is_untrusted(devs: Seq<TrustedDeviceView>, mac: Seq<char>)
    ensures
        !trusted_by(devices_without_mac(devs, normalized_mac(mac)), normalized_macs(seq![mac])),
{
    let m = normalized_mac(mac);
    let ns = normalized_macs(seq![mac]);
    assert(ns =~= seq![m]);
    let mapped = devs.map_values(|d: TrustedDeviceView| without_mac(d, m));
    let after = devices_without_mac(devs, m);
    assert forall|i: int| 0 <= i < after.len() implies !#[trigger] trusted_match(after[i], ns) by {
        assert(mapped.filter(|d: TrustedDeviceView| d.macs.len() > 0).contains(after[i]));
        mapped.lemma_filter_contains_rev(|d: TrustedDeviceView| d.macs.len() > 0, after[i]);
        let j = choose|j: int| 0 <= j < mapped.len() && mapped[j] == after[i];
        let d = devs[j];
        let kept = d.macs.filter(|x: Seq<char>| normalized_mac(x) != m);
        assert(after[i].macs == kept);
        if matches_any(kept, ns) {
            let k = choose|k: int| 0 <= k < kept.len() && ns.contains(#[trigger] normalized_mac(kept[k]));
            broadcast use vstd::seq_lib::group_filter_ensures;

            assert(normalized_mac(kept[k]) != m);
        }
    }
}

} // verus!
