use soullink_levelcap::emulator::citra::{
    find_citra_pid, find_fcram_base, is_citra_process_name, ProcessInfo, FCRAM_SIZE,
};
use soullink_levelcap::memory::windows::{region_step, Region};
use soullink_levelcap::emulator::{CitraProcess, Emulator};
use soullink_levelcap::memory::linux::{fcram_candidates, MapEntry};

#[test]
fn fcram_addr_translates_guest_addresses() {
    let procs = vec![
        ProcessInfo { pid: 5, name: "citra-room".to_string() },
        ProcessInfo { pid: 7, name: "citra-qt".to_string() },
    ];
    let c = CitraProcess::find(&procs, &vec![Region { base: 0x7f00_0000_0000, size: FCRAM_SIZE }], true)
        .unwrap();
    assert_eq!(c.pid, 7);
    assert_eq!(c.fcram_addr(0x0800_0000), 0x7f00_0000_0000);
    assert_eq!(c.fcram_addr(0x0F48_EE14), 0x7f00_0000_0000 + 0x0748_EE14);
    assert_eq!(Emulator::fcram_addr(&c, 0x0800_0010), 0x7f00_0000_0010);
    assert_eq!(Emulator::pid(&c), 7);
    assert_eq!(c.badge_offset_3ds, 0x0F48_EE14);
    assert_eq!(c.party_base_3ds, 0x0F51_82BC);
}

#[test]
fn find_reports_missing_process_and_region() {
    let none = vec![ProcessInfo { pid: 1, name: "citra-room".to_string() }];
    let e = CitraProcess::find(&none, &vec![], true).err().unwrap();
    assert_eq!(e.to_string(), "Citra-Prozess nicht gefunden. Citra mit ORAS gestartet?");
    let citra = vec![ProcessInfo { pid: 3, name: "citra".to_string() }];
    let e = CitraProcess::find(&citra, &vec![Region { base: 1, size: 10 }], true).err().unwrap();
    assert_eq!(
        e.to_string(),
        "Kein anonymer RW-Block ≥ 128 MiB im Prozess 3 gefunden — Citra läuft, aber kein Spiel geladen?"
    );
    let e = CitraProcess::find(&citra, &vec![Region { base: 1, size: 10 }], false).err().unwrap();
    assert_eq!(
        e.to_string(),
        "Kein RW-Block ≥ 128 MiB im Prozess 3 gefunden — Citra läuft, aber kein Spiel geladen?"
    );
}

#[test]
fn fcram_region_is_the_largest_of_at_least_128_mib() {
    let mib = 1024 * 1024;
    let regions = vec![
        Region { base: 0x100, size: 64 * mib },
        Region { base: 0x200, size: 512 * mib },
        Region { base: 0x300, size: 256 * mib },
        Region { base: 0x400, size: 256 * mib },
        Region { base: 0x500, size: 1024 * mib },
    ];
    assert_eq!(find_fcram_base(1, &regions, true).unwrap(), 0x500);
    let two = vec![Region { base: 0x700, size: 128 * mib }, Region { base: 0x600, size: 256 * mib }];
    assert_eq!(find_fcram_base(1, &two, true).unwrap(), 0x600);
    let ties = vec![Region { base: 0x800, size: 256 * mib }, Region { base: 0x900, size: 256 * mib }];
    assert_eq!(find_fcram_base(1, &ties, false).unwrap(), 0x800);
    assert!(find_fcram_base(1, &vec![Region { base: 0, size: 127 * mib }], true).is_err());
}

#[test]
fn citra_process_names() {
    assert!(is_citra_process_name("citra-qt"));
    assert!(is_citra_process_name("Citra.exe"));
    assert!(is_citra_process_name("CITRA"));
    assert!(!is_citra_process_name("citra-room"));
    assert!(!is_citra_process_name("Citra-ROOM.exe"));
    assert!(!is_citra_process_name("xcitra"));
    assert!(!is_citra_process_name("cit"));
    let procs = vec![
        ProcessInfo { pid: 1, name: "bash".to_string() },
        ProcessInfo { pid: 2, name: "citra-room".to_string() },
        ProcessInfo { pid: 3, name: "citra-qt".to_string() },
        ProcessInfo { pid: 4, name: "citra".to_string() },
    ];
    assert_eq!(find_citra_pid(&procs), Some(3));
    let only_others = vec![
        ProcessInfo { pid: 1, name: "bash".to_string() },
        ProcessInfo { pid: 2, name: "citra-room".to_string() },
    ];
    assert_eq!(find_citra_pid(&only_others), None);
}

#[test]
fn parses_proc_maps_lines() {
    let m = MapEntry::parse("7f1234567000-7f1234600000 rw-p 00000000 00:00 0  [heap]").unwrap();
    assert_eq!(m.start, 0x7f12_3456_7000);
    assert_eq!(m.end, 0x7f12_3460_0000);
    assert_eq!(m.perms, "rw-p");
    assert_eq!(m.pathname, "[heap]");
    assert_eq!(m.size(), 0x99000);
    assert!(!m.is_anonymous_rw());
    let m = MapEntry::parse("00400000-0040B000 r-xp 00000000 08:01 123 /usr/bin/my   app").unwrap();
    assert_eq!(m.pathname, "/usr/bin/my app");
    assert_eq!(m.end, 0x40B000);
    let m = MapEntry::parse("10000000-18000000 rw-p 00000000 00:00 0").unwrap();
    assert!(m.is_anonymous_rw());
    assert_eq!(m.pathname, "");
    assert!(MapEntry::parse("10000000-18000000 rw-p 00000000 00:00").is_none());
    assert!(MapEntry::parse("1000000018000000 rw-p 0 00:00 0").is_none());
    assert!(MapEntry::parse("10g0-2000 rw-p 0 00:00 0").is_none());
    assert!(MapEntry::parse("10000000000000000-2 rw-p 0 00:00 0").is_none());
    assert!(MapEntry::parse("").is_none());
}

#[test]
fn anonymous_rw_mappings_become_candidates() {
    let lines = [
        "08000000-10000000 rw-p 00000000 00:00 0",
        "10000000-20000000 r--p 00000000 00:00 0",
        "20000000-30000000 rw-p 00000000 08:01 5 /dev/shm/x",
        "40000000-50000000 rw-s 00000000 00:00 0",
    ];
    let maps: Vec<MapEntry> = lines.iter().map(|l| MapEntry::parse(l).unwrap()).collect();
    let regions = fcram_candidates(&maps);
    assert_eq!(regions.len(), 2);
    assert_eq!((regions[0].base, regions[0].size), (0x0800_0000, 0x0800_0000));
    assert_eq!((regions[1].base, regions[1].size), (0x4000_0000, 0x1000_0000));
    assert_eq!(find_fcram_base(9, &regions, true).unwrap(), 0x4000_0000);
}

#[test]
fn region_walk_steps() {
    assert!(matches!(region_step(0, 5, 5, 0x1000, 0x20000, 4), Ok((None, None))));
    let r = region_step(48, 0x1000, 0x2000, 0x1000, 0x20000, 0x04).unwrap();
    assert!(matches!(r.0, Some(Region { base: 0x1000, size: 0x2000 })));
    assert_eq!(r.1, Some(0x3000));
    let r = region_step(48, 0x1000, 0x2000, 0x1000, 0x40000, 0x04).unwrap();
    assert!(r.0.is_none());
    assert_eq!(r.1, Some(0x3000));
    let e = region_step(48, usize::MAX, 2, 0x1000, 0x20000, 0x04).unwrap_err();
    assert_eq!(e.to_string(), "VirtualQueryEx overflow");
}
