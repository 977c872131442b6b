use display_fs::port::{
    connection_target, detect_display_model, detect_model_from_hint, manual_port_info, select_display_port, DisplayConfig,
    DisplayModel, PortInfo, SerialPortEntry, UsbPortInfo, DISPLAY_FS_BAUD_LARGE,
    DISPLAY_FS_BAUD_SMALL, DISPLAY_FS_PID_LARGE, DISPLAY_FS_VID, DISPLAY_FS_VID_PID,
};

fn usb(vid: u16, pid: u16, product: Option<&str>) -> UsbPortInfo {
    UsbPortInfo {
        vid,
        pid,
        serial_number: None,
        manufacturer: Some("WeAct Studio".to_string()),
        product: product.map(|p| p.to_string()),
    }
}

#[test]
fn test_vid_pid_constants_defined() {
    // Verify CH340, CH341, and WeAct VID/PIDs are defined
    assert!(DISPLAY_FS_VID_PID.contains(&(0x1A86, 0x7523))); // CH340
    assert!(DISPLAY_FS_VID_PID.contains(&(0x1A86, 0x5523))); // CH341
    assert!(DISPLAY_FS_VID_PID.contains(&(0x1A86, 0xFE0C))); // WeAct
}

#[test]
fn test_port_info_struct() {
    let port = PortInfo {
        name: "COM3".to_string(),
        vid: 0x1A86,
        pid: 0x7523,
        model: DisplayModel::Small,
        baud_rate: DISPLAY_FS_BAUD_SMALL,
        product: Some("Display FS 0.96 Inch".to_string()),
        manufacturer: Some("WeAct Studio".to_string()),
    };
    assert_eq!(port.name, "COM3");
    assert_eq!(port.vid, 0x1A86);
    assert_eq!(port.pid, 0x7523);
}

#[test]
fn test_detect_display_model_product_hints() {
    let usb_info = UsbPortInfo {
        vid: DISPLAY_FS_VID,
        pid: DISPLAY_FS_PID_LARGE,
        serial_number: None,
        manufacturer: Some("WeAct Studio".to_string()),
        product: Some("Display FS V1".to_string()),
    };
    assert_eq!(detect_display_model(&usb_info), Some(DisplayModel::Large));

    let usb_info_small = UsbPortInfo {
        vid: DISPLAY_FS_VID,
        pid: DISPLAY_FS_PID_LARGE,
        serial_number: None,
        manufacturer: Some("WeAct Studio".to_string()),
        product: Some("Display FS 0.96 Inch".to_string()),
    };
    assert_eq!(detect_display_model(&usb_info_small), Some(DisplayModel::Small));
}

#[test]
fn detect_model_from_product_string_and_bridge() {
    // Other IDs: the product string decides, case-insensitively.
    assert_eq!(detect_display_model(&usb(0x1234, 0x5678, Some("Panel 0.96\""))), Some(DisplayModel::Small));
    assert_eq!(
        detect_display_model(&usb(0x1234, 0x5678, Some("WeAct DISPLAY FS V1"))),
        Some(DisplayModel::Large)
    );
    // A bare CH340 / CH341 bridge is the small display.
    assert_eq!(detect_display_model(&usb(0x1A86, 0x7523, None)), Some(DisplayModel::Small));
    assert_eq!(detect_display_model(&usb(0x1A86, 0x5523, Some("USB Serial"))), Some(DisplayModel::Small));
    // Unknown device.
    assert_eq!(detect_display_model(&usb(0x0403, 0x6001, Some("FT232R"))), None);
    // The WeAct ID with no product string is the large display.
    assert_eq!(detect_display_model(&usb(0x1A86, 0xFE0C, None)), Some(DisplayModel::Large));
}

#[test]
fn model_configs() {
    let small = DisplayModel::Small.config();
    assert_eq!((small.width, small.height, small.baud_rate), (80, 160, 115200));
    let large = DisplayModel::Large.config();
    assert_eq!((large.width, large.height, large.baud_rate), (320, 480, 1_152_000));
    assert_eq!(large.model, DisplayModel::Large);
}

#[test]
fn overrides_replace_model_then_baud_rate() {
    let base = DisplayModel::Small.config();
    assert_eq!(base.with_overrides(None, None), base);
    assert_eq!(base.with_overrides(Some(DisplayModel::Large), None), DisplayModel::Large.config());
    let forced = base.with_overrides(Some(DisplayModel::Large), Some(9600));
    assert_eq!(
        forced,
        DisplayConfig { model: DisplayModel::Large, width: 320, height: 480, baud_rate: 9600 }
    );
}

#[test]
fn select_picks_first_known_bridge() {
    let ports = vec![
        SerialPortEntry { port_name: "/dev/ttyS0".to_string(), usb: None },
        SerialPortEntry {
            port_name: "/dev/ttyUSB0".to_string(),
            usb: Some(usb(0x0403, 0x6001, Some("FT232R"))),
        },
        SerialPortEntry {
            port_name: "/dev/ttyACM0".to_string(),
            usb: Some(usb(0x1A86, 0xFE0C, Some("Display FS V1"))),
        },
        SerialPortEntry {
            port_name: "/dev/ttyUSB1".to_string(),
            usb: Some(usb(0x1A86, 0x7523, None)),
        },
    ];
    let info = select_display_port(&ports).unwrap();
    assert_eq!(info.name, "/dev/ttyACM0");
    assert_eq!((info.vid, info.pid), (0x1A86, 0xFE0C));
    assert_eq!(info.model, DisplayModel::Large);
    assert_eq!(info.baud_rate, DISPLAY_FS_BAUD_LARGE);
    assert_eq!(info.product.as_deref(), Some("Display FS V1"));
    assert_eq!(info.manufacturer.as_deref(), Some("WeAct Studio"));
}

#[test]
fn select_without_known_bridge_is_none() {
    let ports = vec![SerialPortEntry {
        port_name: "/dev/ttyUSB0".to_string(),
        usb: Some(usb(0x0403, 0x6001, Some("Display FS V1"))),
    }];
    assert!(select_display_port(&ports).is_none());
    assert!(select_display_port(&Vec::new()).is_none());
}

#[test]
fn manual_port_and_connection_target() {
    let port = manual_port_info("/dev/ttyACM3".to_string(), None);
    assert_eq!(port.name, "/dev/ttyACM3");
    assert_eq!((port.vid, port.pid), (0, 0));
    assert_eq!(port.model, DisplayModel::Small);
    assert_eq!(port.baud_rate, DISPLAY_FS_BAUD_SMALL);

    let large = manual_port_info("COM4".to_string(), Some(DisplayModel::Large));
    assert_eq!(large.baud_rate, DISPLAY_FS_BAUD_LARGE);

    let (port, config) = connection_target(port, None, Some(57600));
    assert_eq!(config.baud_rate, 57600);
    assert_eq!(port.baud_rate, 57600);
    assert_eq!((config.width, config.height), (80, 160));
}

#[test]
fn detect_from_lowercased_hint() {
    assert_eq!(detect_model_from_hint(0x1A86, 0xFE0C, "display fs 0.96 inch"), Some(DisplayModel::Small));
    assert_eq!(detect_model_from_hint(0x1A86, 0xFE0C, ""), Some(DisplayModel::Large));
    assert_eq!(detect_model_from_hint(0x0001, 0x0002, "weact display fs v1"), Some(DisplayModel::Large));
    // The hint is read as given: an upper-case product name is not recognised here.
    assert_eq!(detect_model_from_hint(0x0001, 0x0002, "DISPLAY FS V1"), None);
    assert_eq!(detect_model_from_hint(0x1A86, 0x5523, "display"), Some(DisplayModel::Small));
    assert_eq!(detect_model_from_hint(0x1A86, 0x1234, "display"), None);
}
