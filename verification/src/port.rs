//! Display models and recognising a display among the serial ports.
use vstd::prelude::*;
use crate::strings::{chars_of, contains_chars, lowercase, seq_contains, to_lowercase};

verus! {

/// USB vendor ID shared by all supported displays.
pub const DISPLAY_FS_VID: u16 = 0x1A86;

/// USB product ID of the WeAct Studio Display FS V1 CDC interface.
pub const DISPLAY_FS_PID_LARGE: u16 = 0xFE0C;

/// Baud rate of the 0.96 inch display.
pub const DISPLAY_FS_BAUD_SMALL: u32 = 115200;

/// Baud rate of the 3.5 inch display.
pub const DISPLAY_FS_BAUD_LARGE: u32 = 1152000;

/// Vendor and product IDs of the USB bridges the displays use: CH340,
/// CH341 and the WeAct Studio Display FS V1.
pub const DISPLAY_FS_VID_PID: [(u16, u16); 3] = [(0x1A86, 0x7523), (0x1A86, 0x5523), (0x1A86, 0xFE0C)];

/// The two sizes of the display.
#[derive(Debug, Clone, Copy, PartialEq, Eq, Structural)]
pub enum DisplayModel {
    /// 0.96 inch, 80 x 160 pixels.
    Small,
    /// 3.5 inch, 320 x 480 pixels.
    Large,
}

/// Panel size and serial speed of a display model.
#[derive(Debug, Clone, Copy, PartialEq, Eq, Structural)]
pub struct DisplayConfig {
    pub model: DisplayModel,
    pub width: u16,
    pub height: u16,
    pub baud_rate: u32,
}

impl DisplayModel {
    /// The physical (portrait) panel size and baud rate of the model.
    pub open spec fn spec_config(self) -> DisplayConfig {
        match self {
            DisplayModel::Small => DisplayConfig {
                model: self,
                width: 80,
                height: 160,
                baud_rate: DISPLAY_FS_BAUD_SMALL,
            },
            DisplayModel::Large => DisplayConfig {
                model: self,
                width: 320,
                height: 480,
                baud_rate: DISPLAY_FS_BAUD_LARGE,
            },
        }
    }

    /// The physical (portrait) panel size and baud rate of the model.
    pub fn config(self) -> (c: DisplayConfig)
        ensures
            c == self.spec_config(),
    {
        match self {
            DisplayModel::Small => DisplayConfig {
                model: self,
                width: 80,
                height: 160,
                baud_rate: DISPLAY_FS_BAUD_SMALL,
            },
            DisplayModel::Large => DisplayConfig {
                model: self,
                width: 320,
                height: 480,
                baud_rate: DISPLAY_FS_BAUD_LARGE,
            },
        }
    }
}

impl DisplayConfig {
    /// The configuration after the user's choices: a forced model replaces
    /// the whole configuration, then a forced baud rate replaces the speed.
    pub open spec fn spec_with_overrides(self, model: Option<DisplayModel>, baud_rate: Option<u32>) -> DisplayConfig {
        let base = match model {
            Some(m) => m.spec_config(),
            None => self,
        };
        match baud_rate {
            Some(b) => DisplayConfig { baud_rate: b, ..base },
            None => base,
        }
    }

    /// Applies a forced model and a forced baud rate, in that order.
    pub fn with_overrides(self, model: Option<DisplayModel>, baud_rate: Option<u32>) -> (c: DisplayConfig)
        ensures
            c == self.spec_with_overrides(model, baud_rate),
    {
        let mut config = self;
        if let Some(m) = model {
            config = m.config();
        }
        if let Some(b) = baud_rate {
            config.baud_rate = b;
        }
        config
    }
}

/// What USB reports about the device behind a serial port.
#[derive(Debug, Clone)]
pub struct UsbPortInfo {
    pub vid: u16,
    pub pid: u16,
    pub serial_number: Option<String>,
    pub manufacturer: Option<String>,
    pub product: Option<String>,
}

/// One serial port of the system; `usb` is present for USB ports only.
#[derive(Debug)]
pub struct SerialPortEntry {
    pub port_name: String,
    pub usb: Option<UsbPortInfo>,
}

/// A display found on a serial port.
#[derive(Debug, Clone)]
pub struct PortInfo {
    pub name: String,
    pub vid: u16,
    pub pid: u16,
    pub model: DisplayModel,
    pub baud_rate: u32,
    pub product: Option<String>,
    pub manufacturer: Option<String>,
}

/// Whether the vendor and product IDs belong to a supported USB bridge.
pub open spec fn is_display_vid_pid(vid: u16, pid: u16) -> bool {
    exists|i: int| 0 <= i < 3 && #[trigger] DISPLAY_FS_VID_PID@[i] == (vid, pid)
}

/// Whether the vendor and product IDs belong to a supported USB bridge.
pub fn is_display_fs_vid_pid(vid: u16, pid: u16) -> (r: bool)
    ensures
        r == is_display_vid_pid(vid, pid),
{
    let ids = DISPLAY_FS_VID_PID;
    let mut i: usize = 0;
    while i < 3
        invariant
            i <= 3,
            ids@ == DISPLAY_FS_VID_PID@,
            forall|j: int| 0 <= j < i ==> ids@[j] != (vid, pid),
        decreases 3 - i,
    {
        if ids[i].0 == vid && ids[i].1 == pid {
            return true;
        }
        i += 1;
    }
    false
}

/// The product string as the model detection reads it: lowercased, empty
/// when USB reports none.
pub open spec fn product_hint(product: Option<String>) -> Seq<char> {
    match product {
        Some(p) => lowercase(p@),
        None => Seq::empty(),
    }
}

/// Which model a USB device is, from its IDs and its lowercased product
/// string: the WeAct ID is the large display unless the product names the
/// 0.96 inch panel; otherwise the product string decides, and a bare CH340
/// or CH341 bridge is the small display.
pub open spec fn spec_detect_model(vid: u16, pid: u16, product: Seq<char>) -> Option<DisplayModel> {
    if vid == DISPLAY_FS_VID && pid == DISPLAY_FS_PID_LARGE {
        if seq_contains(product, seq!['0', '.', '9', '6']) {
            Some(DisplayModel::Small)
        } else {
            Some(DisplayModel::Large)
        }
    } else if seq_contains(product, seq!['0', '.', '9', '6']) {
        Some(DisplayModel::Small)
    } else if seq_contains(
        product,
        seq!['d', 'i', 's', 'p', 'l', 'a', 'y', ' ', 'f', 's', ' ', 'v', '1'],
    ) {
        Some(DisplayModel::Large)
    } else if vid == 0x1A86 && (pid == 0x7523 || pid == 0x5523) {
        Some(DisplayModel::Small)
    } else {
        None
    }
}

/// Which model a USB device is, given its IDs and its product string
/// already lowercased (see `spec_detect_model`).
pub fn detect_model_from_hint(vid: u16, pid: u16, product_hint: &str) -> (m: Option<DisplayModel>)
    ensures
        m == spec_detect_model(vid, pid, product_hint@),
{
    let product = chars_of(product_hint);
    let small_hint = chars_of("0.96");
    let large_hint = chars_of("display fs v1");
    proof {
        reveal_strlit("0.96");
        reveal_strlit("display fs v1");
        assert(small_hint@ =~= seq!['0', '.', '9', '6']);
        assert(large_hint@ =~= seq!['d', 'i', 's', 'p', 'l', 'a', 'y', ' ', 'f', 's', ' ', 'v', '1']);
    }
    if vid == DISPLAY_FS_VID && pid == DISPLAY_FS_PID_LARGE {
        if contains_chars(product.as_slice(), small_hint.as_slice()) {
            return Some(DisplayModel::Small);
        }
        return Some(DisplayModel::Large);
    }
    if contains_chars(product.as_slice(), small_hint.as_slice()) {
        return Some(DisplayModel::Small);
    }
    if contains_chars(product.as_slice(), large_hint.as_slice()) {
        return Some(DisplayModel::Large);
    }
    if vid == 0x1A86 && (pid == 0x7523 || pid == 0x5523) {
        Some(DisplayModel::Small)
    } else {
        None
    }
}

/// Which model a USB device is: its product string is lowercased (empty
/// when USB reports none) and read together with its IDs (see
/// `spec_detect_model`).
pub fn detect_display_model(usb_info: &UsbPortInfo) -> (m: Option<DisplayModel>)
    ensures
        m == spec_detect_model(usb_info.vid, usb_info.pid, product_hint(usb_info.product)),
{
    let hint = match &usb_info.product {
        Some(p) => to_lowercase(p.as_str()),
        None => String::new(),
    };
    detect_model_from_hint(usb_info.vid, usb_info.pid, hint.as_str())
}

/// The small display is 80 x 160 at 115200 baud, the large one 320 x 480 at
/// 1152000 baud.
pub proof fn lemma_model_configs()
    ensures
        DisplayModel::Small.spec_config() == (DisplayConfig {
            model: DisplayModel::Small,
            width: 80,
            height: 160,
            baud_rate: 115200,
        }),
        DisplayModel::Large.spec_config() == (DisplayConfig {
            model: DisplayModel::Large,
            width: 320,
            height: 480,
            baud_rate: 1152000,
        }),
{
}

/// A forced model decides the model and panel size whatever the base
/// configuration, and its baud rate unless a baud rate is forced too;
/// without a forced model the base's model and size stay. A forced baud
/// rate always wins; otherwise the speed is the forced model's, or the
/// base's.
pub proof fn lemma_overrides(base: DisplayConfig, model: Option<DisplayModel>, baud_rate: Option<u32>)
    ensures
        ({
            let c = base.spec_with_overrides(model, baud_rate);
            &&& match model {
                Some(m) => {
                    &&& c.model == m
                    &&& (c.width, c.height) == if m == DisplayModel::Small {
                        (80u16, 160u16)
                    } else {
                        (320u16, 480u16)
                    }
                },
                None => c.model == base.model && c.width == base.width && c.height == base.height,
            }
            &&& c.baud_rate == match (baud_rate, model) {
                (Some(b), _) => b,
                (None, Some(DisplayModel::Small)) => 115200u32,
                (None, Some(DisplayModel::Large)) => 1152000u32,
                (None, None) => base.baud_rate,
            }
        }),
{
}

/// Connecting uses the forced model's configuration in place of the
/// detected one, and opens the port at the resulting baud rate.
pub proof fn lemma_connection_target_follows_overrides(
    port: PortInfo,
    model: Option<DisplayModel>,
    baud_rate: Option<u32>,
)
    ensures
        ({
            let c = port.model.spec_config().spec_with_overrides(model, baud_rate);
            &&& c.model == match model {
                Some(m) => m,
                None => port.model,
            }
            &&& c.baud_rate == match (baud_rate, model) {
                (Some(b), _) => b,
                (None, Some(DisplayModel::Small)) => 115200u32,
                (None, Some(DisplayModel::Large)) => 1152000u32,
                (None, None) => port.model.spec_config().baud_rate,
            }
        }),
{
    lemma_overrides(port.model.spec_config(), model, baud_rate);
}

/// Every USB bridge of a supported display is recognised as some model.
pub proof fn lemma_known_bridges_are_detected(vid: u16, pid: u16, product: Seq<char>)
    requires
        is_display_vid_pid(vid, pid),
    ensures
        spec_detect_model(vid, pid, product) is Some,
{
    let i = choose|i: int| 0 <= i < 3 && #[trigger] DISPLAY_FS_VID_PID@[i] == (vid, pid);
    assert(DISPLAY_FS_VID_PID@[0] == (0x1A86u16, 0x7523u16));
    assert(DISPLAY_FS_VID_PID@[1] == (0x1A86u16, 0x5523u16));
    assert(DISPLAY_FS_VID_PID@[2] == (0x1A86u16, 0xFE0Cu16));
}

/// The text of an optional string.
pub open spec fn opt_text(s: Option<String>) -> Option<Seq<char>> {
    match s {
        Some(t) => Some(t@),
        None => None,
    }
}

/// A serial port behind one of the supported USB bridges.
pub open spec fn is_candidate(e: SerialPortEntry) -> bool {
    e.usb matches Some(u) && is_display_vid_pid(u.vid, u.pid)
}

/// `info` reports the display on port `e`: its name, IDs, detected model,
/// that model's baud rate and the USB product and manufacturer strings.
pub open spec fn describes(info: PortInfo, e: SerialPortEntry) -> bool {
    &&& e.usb is Some
    &&& info.name@ == e.port_name@
    &&& info.vid == e.usb->0.vid
    &&& info.pid == e.usb->0.pid
    &&& spec_detect_model(e.usb->0.vid, e.usb->0.pid, product_hint(e.usb->0.product)) == Some(
        info.model,
    )
    &&& info.baud_rate == info.model.spec_config().baud_rate
    &&& opt_text(info.product) == opt_text(e.usb->0.product)
    &&& opt_text(info.manufacturer) == opt_text(e.usb->0.manufacturer)
}

fn clone_opt_string(s: &Option<String>) -> (r: Option<String>)
    ensures
        opt_text(r) == opt_text(*s),
{
    match s {
        Some(t) => Some(t.clone()),
        None => None,
    }
}

/// The display on the first serial port whose USB IDs belong to a supported
/// bridge; `None` when no port has such IDs.
pub fn select_display_port(ports: &Vec<SerialPortEntry>) -> (r: Option<PortInfo>)
    ensures
        match r {
            Some(info) => exists|i: int|
                0 <= i < ports@.len() && is_candidate(#[trigger] ports@[i]) && (forall|j: int|
                    0 <= j < i ==> !is_candidate(#[trigger] ports@[j])) && describes(info, ports@[i]),
            None => forall|i: int| 0 <= i < ports@.len() ==> !is_candidate(#[trigger] ports@[i]),
        },
{
    let mut i: usize = 0;
    while i < ports.len()
        invariant
            i <= ports@.len(),
            forall|j: int| 0 <= j < i ==> !is_candidate(#[trigger] ports@[j]),
        decreases ports@.len() - i,
    {
        let port = &ports[i];
        if let Some(usb_info) = &port.usb {
            let vid = usb_info.vid;
            let pid = usb_info.pid;
            if is_display_fs_vid_pid(vid, pid) {
                proof {
                    lemma_known_bridges_are_detected(vid, pid, product_hint(usb_info.product));
                }
                let model = match detect_display_model(usb_info) {
                    Some(m) => m,
                    None => return None,
                };
                let config = model.config();
                let info = PortInfo {
                    name: port.port_name.clone(),
                    vid,
                    pid,
                    model,
                    baud_rate: config.baud_rate,
                    product: clone_opt_string(&usb_info.product),
                    manufacturer: clone_opt_string(&usb_info.manufacturer),
                };
                assert(is_candidate(ports@[i as int]));
                return Some(info);
            }
        }
        i += 1;
    }
    None
}

/// A display named by its serial port path rather than found by USB: no
/// IDs, the forced model or else the small one, and that model's baud rate.
pub fn manual_port_info(path: String, model: Option<DisplayModel>) -> (info: PortInfo)
    ensures
        info.name@ == path@,
        info.vid == 0,
        info.pid == 0,
        info.model == (match model {
            Some(m) => m,
            None => DisplayModel::Small,
        }),
        info.baud_rate == info.model.spec_config().baud_rate,
        info.product is None,
        info.manufacturer is None,
{
    let model = match model {
        Some(m) => m,
        None => DisplayModel::Small,
    };
    PortInfo {
        name: path,
        vid: 0,
        pid: 0,
        model,
        baud_rate: model.config().baud_rate,
        product: None,
        manufacturer: None,
    }
}

/// The configuration to talk to the display on `port` after the user's
/// forced model and baud rate, and the port with that baud rate.
pub fn connection_target(port: PortInfo, model: Option<DisplayModel>, baud_rate: Option<u32>) -> (r: (
    PortInfo,
    DisplayConfig,
))
    ensures
        r.1 == port.model.spec_config().spec_with_overrides(model, baud_rate),
        r.0 == (PortInfo { baud_rate: r.1.baud_rate, ..port }),
{
    let config = port.model.config().with_overrides(model, baud_rate);
    let mut port = port;
    port.baud_rate = config.baud_rate;
    (port, config)
}

} // verus!
