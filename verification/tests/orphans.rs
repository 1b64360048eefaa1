use drain::orphans::{
    detect, kill, proc_comm, KillError, Orphan, OrphanClass, Scan, Signal,
};
use std::time::{Duration, Instant};

const SINKS: &str = "Sink Input #12
\tDriver: PipeWire
\tCorked: no
\tProperties:
\t\tapplication.name = \"sd_dummy\"
\t\tapplication.process.id = \"4242\"
Sink Input #13
\tCorked: yes
\t\tapplication.name = \"firefox\"
Sink Input #14
\tCorked: no
\t\tapplication.process.id = \"77\"
Sink Input #15
\tCorked: no
Sink Input #16
\t\tapplication.name = \"unsaid\"
";

const INHIBITORS: &str = "WHO            UID  USER PID  COMM          WHAT        WHY         MODE
ModemManager   0    root 801  ModemManager  sleep       Prepare     delay
My Player      1000 me   1234 player        sleep:idle  Playing     block
Backup Tool    1000 me   1300 backup        sleep       Copying     block
Screen Saver   1000 me   1301 saver         handle-lid  Locking     block
No Numbers     me   idle block

4 inhibitors listed.
";

fn empty() -> Scan {
    Scan { sink_inputs: None, inhibitors: None, wifi: None, wake_lock: None }
}

fn comm(pid: u32) -> Option<String> {
    match pid {
        77 => Some("mpv\n".to_string()),
        1234 => Some("player\n".to_string()),
        1300 => Some("  \n".to_string()),
        _ => None,
    }
}

fn rows(v: &[Orphan]) -> Vec<(OrphanClass, u32, &str, &str, u32)> {
    v.iter()
        .map(|o| (o.class, o.pid, o.cmd.as_str(), o.detail.as_str(), o.estimated_mw))
        .collect()
}

#[test]
fn streams_that_are_not_corked_hold_the_sink() {
    let scan = Scan { sink_inputs: Some(SINKS.to_string()), ..empty() };
    let found = detect(&scan, &[], &Vec::new(), comm, Instant::now());
    let held = "holding sink active (not corked)";
    assert_eq!(
        rows(&found),
        vec![
            (OrphanClass::Audio, 4242, "sd_dummy", held, 225),
            (OrphanClass::Audio, 77, "mpv", held, 225),
            (OrphanClass::Audio, 0, "audio stream", held, 225),
        ]
    );
}

#[test]
fn inhibitors_that_block_keep_the_machine_awake() {
    let scan = Scan { inhibitors: Some(INHIBITORS.to_string()), ..empty() };
    let found = detect(&scan, &[], &Vec::new(), comm, Instant::now());
    assert_eq!(
        rows(&found),
        vec![
            (OrphanClass::DbusInhibit, 1234, "player", "blocks idle (sleep:idle)", 350),
            (OrphanClass::DbusInhibit, 1300, "pid 1300", "blocks idle (sleep)", 350),
        ]
    );
}

#[test]
fn radio_and_wakelock_are_read_from_files() {
    let now = Instant::now();
    let scan = Scan {
        wifi: Some("0\n".to_string()),
        wake_lock: Some("alarm timer\n".to_string()),
        ..empty()
    };
    let found = detect(&scan, &[], &Vec::new(), comm, now);
    assert_eq!(
        rows(&found),
        vec![
            (
                OrphanClass::WifiPower,
                0,
                "wifi power_save",
                "radio kept awake (power_save off)",
                150
            ),
            (OrphanClass::WakeLock, 0, "kernel wakelock", "held: alarm timer", 200),
        ]
    );
    let quiet = Scan {
        wifi: Some("1\n".to_string()),
        wake_lock: Some(" \n".to_string()),
        ..empty()
    };
    assert!(detect(&quiet, &[], &Vec::new(), comm, now).is_empty());
    assert!(detect(&empty(), &[], &Vec::new(), comm, now).is_empty());
}

#[test]
fn holders_are_held_since_they_were_first_seen() {
    let first = Instant::now();
    let second = first + Duration::from_secs(30);
    let scan = Scan { sink_inputs: Some(SINKS.to_string()), ..empty() };
    let before = detect(&scan, &[], &Vec::new(), comm, first);
    let restarted = SINKS.replace("4242", "4300").replace("unsaid\"", "unsaid\"\n\tCorked: no");
    let scan = Scan { sink_inputs: Some(restarted), ..empty() };
    let after = detect(&scan, &before, &Vec::new(), comm, second);
    let held: Vec<(&str, u32, bool)> =
        after.iter().map(|o| (o.cmd.as_str(), o.pid, o.held_since == first)).collect();
    assert_eq!(
        held,
        vec![
            ("sd_dummy", 4300, true),
            ("mpv", 77, true),
            ("audio stream", 0, true),
            ("unsaid", 0, false),
        ]
    );
    assert!(after[3].held_since == second);
}

#[test]
fn allowlist_goes_by_kind_and_command() {
    let scan = Scan { sink_inputs: Some(SINKS.to_string()), ..empty() };
    let list = vec!["inhibit:sd_dummy".to_string(), "audio:mpv".to_string()];
    let found = detect(&scan, &[], &list, comm, Instant::now());
    let marked: Vec<bool> = found.iter().map(|o| o.allowlisted).collect();
    assert_eq!(marked, vec![false, true, false]);
    assert_eq!(found[1].sig(), "audio:mpv");
}

#[test]
fn kinds_have_labels_and_costs() {
    let kinds = [
        (OrphanClass::Audio, "audio", 225),
        (OrphanClass::DbusInhibit, "inhibit", 350),
        (OrphanClass::WifiPower, "wifi-ps", 150),
        (OrphanClass::WakeLock, "wakelock", 200),
    ];
    for (k, label, mw) in kinds {
        assert_eq!((k.label(), k.base_mw()), (label, mw));
    }
}

#[test]
fn processes_without_a_name_go_by_number() {
    assert_eq!(proc_comm(7, &Some(" glass \n".to_string())), "glass");
    assert_eq!(proc_comm(7, &Some("\n".to_string())), "pid 7");
    assert_eq!(proc_comm(7, &None), "pid 7");
}

#[test]
fn only_processes_can_be_ended() {
    assert_eq!(kill(7, false), Ok(Signal::Term));
    assert_eq!(kill(7, true), Ok(Signal::Kill));
    assert_eq!(kill(0, true), Err(KillError::NoPid));
    assert_eq!(kill(2147483647, false), Ok(Signal::Term));
    assert_eq!(kill(2147483648, false), Err(KillError::BadPid));
    assert_eq!(kill(4294967295, true), Err(KillError::BadPid));
    assert_eq!(KillError::BadPid.message(), "no process can have this pid");
    assert_eq!(KillError::NoPid.message(), "no pid to signal for this resource class");
}
