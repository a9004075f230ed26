//! Device ID, fingerprint and particulars.

use labric_sync::device::{
    get_device_fingerprint, get_device_info, to_hex, DeviceIdReply, DeviceIdStep, DeviceInfoReply,
    DeviceInfoStep, SystemFacts,
};
use labric_sync::heartbeat::{
    start_heartbeat_service, update_heartbeat_token, HeartbeatConfig, HeartbeatRequest,
};

#[test]
fn fingerprint_is_the_hash_of_the_machine_id() {
    assert_eq!(
        get_device_fingerprint(Ok("abc".to_string())),
        Ok("ba7816bf8f01cfea414140de5dae2223b00361a396177a9cb410ff61f20015ad".to_string())
    );
    assert_eq!(
        get_device_fingerprint(Ok(String::new())),
        Ok("e3b0c44298fc1c149afbf4c8996fb92427ae41e4649b934ca495991b7852b855".to_string())
    );
    // the same machine always has the same one
    let once = get_device_fingerprint(Ok("m-1".to_string())).unwrap();
    assert_eq!(get_device_fingerprint(Ok("m-1".to_string())), Ok(once.clone()));
    assert_eq!(once.len(), 64);
    assert_eq!(
        get_device_fingerprint(Err("denied".to_string())),
        Err("Failed to get machine ID: denied".to_string())
    );
}

#[test]
fn hex_is_lower_case_and_padded() {
    assert_eq!(to_hex(&vec![0x00, 0x0a, 0x9f, 0xff]), "000a9fff");
    assert_eq!(to_hex(&vec![]), "");
    assert_ne!(to_hex(&vec![0x01, 0x20]), to_hex(&vec![0x12, 0x00]));
}

#[test]
fn new_device_gets_a_random_id_and_keeps_it() {
    let step = DeviceIdStep::LocateDataDirectory.next(DeviceIdReply::Done);
    assert_eq!(step, DeviceIdStep::CheckDataDirectory);
    let step = step.next(DeviceIdReply::Exists(false));
    assert_eq!(step, DeviceIdStep::CreateDataDirectory);
    let step = step.next(DeviceIdReply::Done);
    assert_eq!(step, DeviceIdStep::CheckIdFile);
    let step = step.next(DeviceIdReply::Exists(false));
    let id = match &step {
        DeviceIdStep::WriteIdFile(id) => id.clone(),
        _ => panic!("a new ID must be written"),
    };
    let chars: Vec<char> = id.chars().collect();
    assert_eq!(chars.len(), 36);
    for (i, c) in chars.iter().enumerate() {
        match i {
            8 | 13 | 18 | 23 => assert_eq!(*c, '-'),
            14 => assert_eq!(*c, '4'),
            19 => assert!("89ab".contains(*c)),
            _ => assert!("0123456789abcdef".contains(*c)),
        }
    }
    assert_eq!(
        step.next(DeviceIdReply::Done),
        DeviceIdStep::Done(Ok(id.clone()))
    );

    // the next run finds the directory and the file
    let step = DeviceIdStep::CheckDataDirectory.next(DeviceIdReply::Exists(true));
    assert_eq!(step, DeviceIdStep::CheckIdFile);
    let step = step.next(DeviceIdReply::Exists(true));
    assert_eq!(step, DeviceIdStep::ReadIdFile);
    assert_eq!(
        step.next(DeviceIdReply::Text(id.clone())),
        DeviceIdStep::Done(Ok(id))
    );
}

#[test]
fn two_devices_get_different_ids() {
    let one = DeviceIdStep::CheckIdFile.next(DeviceIdReply::Exists(false));
    let other = DeviceIdStep::CheckIdFile.next(DeviceIdReply::Exists(false));
    assert_ne!(one, other);
    assert_eq!(
        DeviceIdStep::CheckIdFile.next_with(DeviceIdReply::Exists(false), "given".to_string()),
        DeviceIdStep::WriteIdFile("given".to_string())
    );
}

#[test]
fn failures_on_the_way_to_the_id_are_told_apart() {
    let failed = || DeviceIdReply::Failed("disk".to_string());
    let cases = [
        (
            DeviceIdStep::LocateDataDirectory,
            "Failed to get app data directory: disk",
        ),
        (
            DeviceIdStep::CreateDataDirectory,
            "Failed to create app directory: disk",
        ),
        (
            DeviceIdStep::ReadIdFile,
            "Failed to read device ID file: disk",
        ),
        (
            DeviceIdStep::WriteIdFile("x".to_string()),
            "Failed to write device ID file: disk",
        ),
    ];
    for (step, message) in cases {
        assert_eq!(
            step.next(failed()),
            DeviceIdStep::Done(Err(message.to_string()))
        );
    }
    // a reply that does not fit is of no consequence
    assert_eq!(
        DeviceIdStep::CheckIdFile.next(DeviceIdReply::Done),
        DeviceIdStep::CheckIdFile
    );
}

fn facts(os: &str, arch: &str) -> SystemFacts {
    SystemFacts {
        host_name: Some("lab-7".to_string()),
        os_version: Some("24.04".to_string()),
        os: os.to_string(),
        arch: arch.to_string(),
        cpus: 8,
        memory_bytes: 17179869183,
    }
}

#[test]
fn device_info_is_put_together() {
    let info = get_device_info(
        Ok("id".to_string()),
        Ok("fp".to_string()),
        facts("linux", "x86_64"),
    )
    .unwrap();
    assert_eq!(info.hostname, "lab-7");
    assert_eq!(info.platform, "Linux");
    assert_eq!(info.os_type, "Linux");
    assert_eq!(info.release, "24.04");
    assert_eq!(info.arch, "x64");
    assert_eq!(info.cpus, 8);
    // one byte short of sixteen gigabytes
    assert_eq!(info.total_memory, 15);
    assert_eq!(info.device_id, "id");
    assert_eq!(info.device_fingerprint, "fp");
}

#[test]
fn device_info_names_platforms_and_fills_gaps() {
    let label = |os: &str, arch: &str| {
        let info =
            get_device_info(Ok(String::new()), Ok(String::new()), facts(os, arch)).unwrap();
        (info.platform, info.arch)
    };
    assert_eq!(
        label("windows", "aarch64"),
        ("Windows".to_string(), "arm64".to_string())
    );
    assert_eq!(
        label("macos", "x86"),
        ("macOS".to_string(), "x86".to_string())
    );
    assert_eq!(
        label("freebsd", "riscv64"),
        ("Unknown".to_string(), "riscv64".to_string())
    );
    let bare = SystemFacts {
        host_name: None,
        os_version: None,
        ..facts("linux", "x86_64")
    };
    let info = get_device_info(Ok(String::new()), Ok(String::new()), bare).unwrap();
    assert_eq!(info.hostname, "Unknown");
    assert_eq!(info.release, "Unknown");
}

#[test]
fn device_info_reports_the_first_failure() {
    let no = |e: &str| -> Result<String, String> { Err(e.to_string()) };
    assert_eq!(
        get_device_info(no("id"), no("fp"), facts("linux", "x86")),
        Err("id".to_string())
    );
    assert_eq!(
        get_device_info(Ok(String::new()), no("fp"), facts("linux", "x86")),
        Err("fp".to_string())
    );
}

#[test]
fn device_info_is_found_step_by_step() {
    let step = DeviceInfoStep::FindDeviceId.next(DeviceInfoReply::DeviceId(Ok("id".to_string())));
    assert_eq!(
        step,
        DeviceInfoStep::ReadMachineId {
            device_id: "id".to_string()
        }
    );
    let step = step.next(DeviceInfoReply::MachineId(Ok("abc".to_string())));
    let fingerprint = "ba7816bf8f01cfea414140de5dae2223b00361a396177a9cb410ff61f20015ad";
    assert_eq!(
        step,
        DeviceInfoStep::ReadFacts {
            device_id: "id".to_string(),
            device_fingerprint: fingerprint.to_string(),
        }
    );
    let step = step.next(DeviceInfoReply::Facts(facts("linux", "x86_64")));
    assert_eq!(
        step,
        DeviceInfoStep::Done(get_device_info(
            Ok("id".to_string()),
            Ok(fingerprint.to_string()),
            facts("linux", "x86_64"),
        ))
    );
}

#[test]
fn machine_id_is_not_asked_for_without_a_device_id() {
    let failed = || DeviceInfoStep::Done(Err("no id".to_string()));
    let step =
        DeviceInfoStep::FindDeviceId.next(DeviceInfoReply::DeviceId(Err("no id".to_string())));
    assert_eq!(step, failed());
    let step = step.next(DeviceInfoReply::MachineId(Ok("abc".to_string())));
    assert_eq!(step, failed());

    // nor does a reply ahead of its time count
    let step = DeviceInfoStep::FindDeviceId.next(DeviceInfoReply::MachineId(Ok("abc".to_string())));
    assert_eq!(step, DeviceInfoStep::FindDeviceId);

    let step = DeviceInfoStep::ReadMachineId {
        device_id: "id".to_string(),
    };
    assert_eq!(
        step.next(DeviceInfoReply::MachineId(Err("denied".to_string()))),
        DeviceInfoStep::Done(Err("Failed to get machine ID: denied".to_string()))
    );
}

#[test]
fn heartbeat_goes_to_the_configured_server() {
    let info = get_device_info(
        Ok("id".to_string()),
        Ok("fp".to_string()),
        facts("linux", "x86_64"),
    );
    let config = start_heartbeat_service(
        "/api/heartbeat",
        "token".to_string(),
        info,
        "1.2.3".to_string(),
        "https://sync.example",
    )
    .unwrap();
    assert_eq!(
        config,
        HeartbeatConfig {
            url: "https://sync.example/api/heartbeat".to_string(),
            token: "token".to_string(),
            device_fingerprint: "fp".to_string(),
            app_version: "1.2.3".to_string(),
        }
    );
    let updated = update_heartbeat_token(Some(config), "fresh".to_string()).unwrap();
    assert_eq!(updated.token, "fresh");
    assert_eq!(updated.url, "https://sync.example/api/heartbeat");
    assert_eq!(updated.device_fingerprint, "fp");
    assert_eq!(updated.app_version, "1.2.3");
}

#[test]
fn heartbeat_failures_and_replies() {
    assert_eq!(
        update_heartbeat_token(None, "fresh".to_string()),
        Err("No active heartbeat to update".to_string())
    );
    assert_eq!(
        start_heartbeat_service(
            "/h",
            String::new(),
            Err("no id".to_string()),
            String::new(),
            "s"
        ),
        Err("no id".to_string())
    );
    assert_eq!(
        HeartbeatRequest::Start.reply(Ok(())),
        Ok("Heartbeat started".to_string())
    );
    assert_eq!(
        HeartbeatRequest::Stop.reply(Ok(())),
        Ok("Heartbeat stopped".to_string())
    );
    assert_eq!(
        HeartbeatRequest::UpdateToken.reply(Ok(())),
        Ok("Heartbeat token updated".to_string())
    );
    assert_eq!(
        HeartbeatRequest::Stop.reply(Err("busy".to_string())),
        Err("busy".to_string())
    );
}
