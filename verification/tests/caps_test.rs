use soullink_levelcap::caps::{CapError, CapTable};

#[test]
fn parses_minimal_valid_file() {
    let table = CapTable::parse("0=15").unwrap();
    assert_eq!(table.cap_for(0).unwrap(), 15);
}

#[test]
fn parses_full_default_caps() {
    let content = "\
# Kommentar
0=15
1=19
2=24
3=29
4=31
5=33
6=36
7=42
8=48
";
    let table = CapTable::parse(content).unwrap();
    assert_eq!(table.cap_for(0).unwrap(), 15);
    assert_eq!(table.cap_for(3).unwrap(), 29);
    assert_eq!(table.cap_for(8).unwrap(), 48);
}

#[test]
fn ignores_blank_lines_and_comments() {
    let content = "\n\n# header\n0=10\n\n  # inline-ish\n1=20\n";
    let table = CapTable::parse(content).unwrap();
    assert_eq!(table.cap_for(0).unwrap(), 10);
    assert_eq!(table.cap_for(1).unwrap(), 20);
}

#[test]
fn rejects_missing_zero_badge_entry() {
    let err = CapTable::parse("1=19").unwrap_err();
    assert!(err.to_string().contains("0=<cap>"));
}

#[test]
fn rejects_badge_count_above_eight() {
    let err = CapTable::parse("0=10\n9=99").unwrap_err();
    assert!(err.to_string().contains("> 8"));
}

#[test]
fn rejects_level_above_hundred() {
    let err = CapTable::parse("0=101").unwrap_err();
    assert!(err.to_string().contains("außerhalb"));
}

#[test]
fn rejects_zero_level_cap() {
    let err = CapTable::parse("0=0").unwrap_err();
    assert!(err.to_string().contains("außerhalb"));
}

#[test]
fn rejects_duplicate_badge_count() {
    let err = CapTable::parse("0=15\n0=20").unwrap_err();
    assert!(err.to_string().contains("doppelt"));
}

#[test]
fn rejects_line_without_equals_sign() {
    let err = CapTable::parse("0=15\nblubb").unwrap_err();
    assert!(err.to_string().contains("kein '='"));
}

#[test]
fn cap_for_unknown_badges_returns_error() {
    let table = CapTable::parse("0=15\n8=48").unwrap();
    let err = table.cap_for(3).unwrap_err();
    assert!(err.to_string().contains("3 Orden"));
}

/// The default caps shipped as `caps.example.txt` (the values of SETUP.md).
const EXAMPLE_CAPS: &str = "0=15\n1=19\n2=24\n3=29\n4=31\n5=33\n6=36\n7=42\n8=48\n";

#[test]
fn caps_example_loads_and_covers_all_badge_counts() {
    let table = CapTable::parse(EXAMPLE_CAPS).expect("caps.example.txt muss parsen");
    for badges in 0u8..=8 {
        let cap = table
            .cap_for(badges)
            .unwrap_or_else(|_| panic!("caps.example.txt deckt {badges} Orden nicht ab"));
        assert!((1..=100).contains(&cap), "Cap {cap} außerhalb 1..=100");
    }
}

#[test]
fn caps_example_is_monotonic() {
    let table = CapTable::parse(EXAMPLE_CAPS).unwrap();
    let mut prev = 0u8;
    for badges in 0u8..=8 {
        let cap = table.cap_for(badges).unwrap();
        assert!(cap >= prev, "Cap fällt zwischen {} und {} Orden", badges - 1, badges);
        prev = cap;
    }
}

#[test]
fn error_messages_are_exact() {
    let e = CapTable::parse("0=15\nblubb").unwrap_err();
    assert_eq!(e.to_string(), "Zeile 2 ungültig (kein '='): blubb");
    let e = CapTable::parse("0=10\n9=99").unwrap_err();
    assert_eq!(
        e.to_string(),
        "Zeile 2: Orden-Anzahl 9 > 8 (ORAS hat nur 8 Hoenn-Orden)"
    );
    let e = CapTable::parse("0=101").unwrap_err();
    assert_eq!(e.to_string(), "Zeile 1: Level-Cap 101 außerhalb 1..=100");
    let e = CapTable::parse("0=15\n0=20").unwrap_err();
    assert_eq!(e.to_string(), "Zeile 2: Orden-Anzahl 0 doppelt definiert");
    let e = CapTable::parse("1=19").unwrap_err();
    assert_eq!(e.to_string(), "caps.txt muss mindestens '0=<cap>' enthalten");
    let table = CapTable::parse("0=15\n8=48").unwrap();
    let e = table.cap_for(3).unwrap_err();
    assert_eq!(
        e.to_string(),
        "Kein Cap für 3 Orden in caps.txt definiert. Definierte Stufen: [0, 8]"
    );
}

#[test]
fn unparsable_numbers_are_reported_with_their_text() {
    let e = CapTable::parse("0=15\nx =3").unwrap_err();
    assert_eq!(e.to_string(), "Zeile 2: Orden-Anzahl nicht parsebar: x ");
    assert!(matches!(e, CapError::BadgesUnparsable { line: 2, .. }));
    let e = CapTable::parse("0= 256").unwrap_err();
    assert_eq!(e.to_string(), "Zeile 1: Level-Cap nicht parsebar:  256");
    let e = CapTable::parse("0=-1").unwrap_err();
    assert!(matches!(e, CapError::CapUnparsable { line: 1, .. }));
    let e = CapTable::parse("=5").unwrap_err();
    assert!(matches!(e, CapError::BadgesUnparsable { line: 1, .. }));
}

#[test]
fn accepts_plus_sign_leading_zeros_crlf_and_unicode_spaces() {
    let empty = CapTable::parse("").err();
    assert!(matches!(empty, Some(CapError::MissingZeroBadges)));
    let table = CapTable::parse("  +0 = 007 \r\n\u{3000}3=+30\u{a0}\r\n").unwrap();
    assert_eq!(table.cap_for(0).unwrap(), 7);
    assert_eq!(table.cap_for(3).unwrap(), 30);
    assert_eq!(table.defined_badge_counts(), vec![0, 3]);
}

#[test]
fn first_error_wins_and_later_lines_count() {
    let e = CapTable::parse("0=15\n\n\n# x\n5=0\n9=9").unwrap_err();
    assert!(matches!(e, CapError::CapOutOfRange { line: 5, cap: 0 }));
    let e = CapTable::parse("9=0").unwrap_err();
    assert!(matches!(e, CapError::TooManyBadges { line: 1, badges: 9 }));
}

#[test]
fn defined_badge_counts_are_ascending() {
    let table = CapTable::parse("8=48\n0=15\n4=31").unwrap();
    assert_eq!(table.defined_badge_counts(), vec![0, 4, 8]);
    let copy = table.clone();
    assert_eq!(copy.cap_for(4).unwrap(), 31);
}

#[test]
fn every_looked_up_cap_comes_from_a_line_of_the_text() {
    let t = CapTable::parse("# caps\n0=15\r\n 3 = 29 \n\n").unwrap();
    assert_eq!(t.cap_for(0).unwrap(), 15);
    assert_eq!(t.cap_for(3).unwrap(), 29);
    assert!(t.cap_for(1).is_err());
    assert!(t.cap_for(2).is_err());
}
