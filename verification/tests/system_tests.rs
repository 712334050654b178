use norisk_capture::system::{driver_version, log_system, monitor_description, windows_version, Gpu, NVIDIA};

fn umd(parts: [u64; 4]) -> u64 {
    (parts[0] << 48) | (parts[1] << 32) | (parts[2] << 16) | parts[3]
}

#[test]
fn an_nvidia_driver_is_shown_the_way_nvidia_names_it() {
    assert_eq!(driver_version(umd([32, 0, 15, 9597]), NVIDIA), "32.0.15.9597 (595.97)");
    assert_eq!(driver_version(umd([31, 0, 15, 5222]), NVIDIA), "31.0.15.5222 (552.22)");
    assert_eq!(driver_version(umd([32, 0, 15, 7005]), NVIDIA), "32.0.15.7005 (570.05)");
}

#[test]
fn other_drivers_keep_their_plain_version() {
    assert_eq!(driver_version(umd([31, 0, 24033, 1003]), 0x1002), "31.0.24033.1003");
}

#[test]
fn a_driver_version_of_zeros_and_of_all_ones_is_written_out_whole() {
    assert_eq!(driver_version(0, 0x8086), "0.0.0.0");
    assert_eq!(driver_version(u64::MAX, 0x8086), "65535.65535.65535.65535");
    assert_eq!(driver_version(0, NVIDIA), "0.0.0.0 (0.00)");
}

#[test]
fn the_system_log_names_every_card_and_monitor() {
    let gpus = vec![
        Gpu { name: "RTX 4070".into(), vendor: NVIDIA, driver: Some("32.0.15.9597 (595.97)".into()), memory_mb: 12_282 },
        Gpu { name: "Basic".into(), vendor: 0x1414, driver: None, memory_mb: 0 },
    ];
    let monitors = vec!["2560x1440 at 100% (primary)".to_string(), "1920x1080 at 125%".to_string()];

    let lines = log_system("Windows 11 build 22631.3880 (23H2)", "7.1", &gpus, &monitors);

    assert_eq!(
        lines,
        vec![
            "System: Windows 11 build 22631.3880 (23H2), FFmpeg 7.1".to_string(),
            "Graphics card: RTX 4070 (12282 MB), driver 32.0.15.9597 (595.97)".to_string(),
            "Graphics card: Basic (0 MB), driver unknown".to_string(),
            "Monitor 1: 2560x1440 at 100% (primary)".to_string(),
            "Monitor 2: 1920x1080 at 125%".to_string(),
        ]
    );
}

#[test]
fn the_system_is_named_by_its_build() {
    assert_eq!(
        windows_version(Some("22631"), Some(3880), Some("23H2")),
        "Windows 11 build 22631.3880 (23H2)"
    );
    assert_eq!(windows_version(Some("19045"), Some(4529), None), "Windows 10 build 19045.4529");
    assert_eq!(windows_version(Some("22000"), None, None), "Windows 11 build 22000");
    assert_eq!(windows_version(Some("21999"), None, None), "Windows 10 build 21999");
}

#[test]
fn a_build_that_is_not_a_number_names_no_release() {
    assert_eq!(windows_version(None, None, None), "Windows build ?");
    assert_eq!(windows_version(Some("22631a"), None, Some("23H2")), "Windows build 22631a (23H2)");
    assert_eq!(windows_version(Some("99999999999"), None, None), "Windows build 99999999999");
    assert_eq!(windows_version(Some("+22631"), None, None), "Windows 11 build +22631");
    assert_eq!(windows_version(Some(""), None, None), "Windows build ");
    assert_eq!(windows_version(Some("+"), None, None), "Windows build +");
}

#[test]
fn a_monitor_is_described_by_its_size_and_scale() {
    assert_eq!(monitor_description(0, 0, 2560, 1440, 96, true), "2560x1440 at 100% (primary)");
    assert_eq!(monitor_description(-1920, 0, 0, 1080, 120, false), "1920x1080 at 125%");
    assert_eq!(monitor_description(0, 0, 3840, 2160, 144, false), "3840x2160 at 150%");
}
