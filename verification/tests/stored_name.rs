use resident_fat::name::{stored_name, StoredName, MAX_LONG_NAME};
use resident_fat::{Attributes, Codepage, Result, ShortName};


/// Builds a name in a directory that already holds `existing`.
fn build(name: &str, existing: &[&str]) -> Result<StoredName, ()> {
    let owned: Vec<String> = existing.iter().map(|n| n.to_uppercase()).collect();
    stored_name(name, &Codepage::ASCII(), &|alias: &str| {
        owned.iter().any(|taken| taken == &alias.to_uppercase())
    })
}

fn alias(stored: &StoredName) -> String {
    stored.short.to_display_string()
}

/// Where a slot keeps its character number `n`.
fn char_offset(n: usize) -> usize {
    match n {
        0..=4 => 1 + 2 * n,
        5..=10 => 14 + 2 * (n - 5),
        _ => 28 + 2 * (n - 11),
    }
}

/// A name that already fits 8.3 costs one entry, whatever its case.
#[test]
fn a_short_name_needs_no_slots() {
    for name in ["GAME.NES", "game.nes", "readme", "123.TXT", "a.b"] {
        let stored = build(name, &[]).expect("should fit");
        assert!(
            stored.slots.is_empty(),
            "{name} should need no long-name slots"
        );
        assert_eq!(alias(&stored), name, "{name} should round-trip");
    }
}

/// Mixed case is what the case bits cannot express, so that is where
/// slots start being needed -- and the alias is still the name itself.
#[test]
fn mixed_case_needs_slots_but_not_a_tail() {
    let stored = build("ReadMe.txt", &[]).expect("should fit as an alias");
    assert_eq!(alias(&stored), "README.TXT");
    assert_eq!(stored.slots.len(), 1);
}

/// A name too long, or carrying characters 8.3 has no room for, is
/// mangled and given a tail.
#[test]
fn names_that_do_not_fit_are_mangled() {
    let cases = [
        ("toolongforeight.txt", "TOOLON~1.TXT"),
        ("has space.txt", "HASSPA~1.TXT"),
        ("two.dots.txt", "TWODOT~1.TXT"),
        ("GOOD.LONGEXT", "GOOD~1.LON"),
        ("plus+equals=.txt", "PLUS_E~1.TXT"),
        (".gitignore", "GITIGN~1"),
    ];
    for (name, expected) in cases {
        let stored = build(name, &[]).expect("should be mangled, not refused");
        assert_eq!(alias(&stored), expected, "{name}");
        assert!(!stored.slots.is_empty(), "{name} needs its long name kept");
    }
}

/// Colliding aliases keep counting past the nine Linux stops at, which
/// the resident directory makes affordable.
///
/// The base gives up a character each time the tail needs another
/// digit, rather than the tail being truncated -- a shortened tail
/// would not be unique, which is the only thing it is there for.
#[test]
fn a_tail_counts_past_nine() {
    let mut existing: Vec<String> = Vec::new();
    for expected in [
        "ALONGN~1.TXT",
        "ALONGN~2.TXT",
        "ALONGN~3.TXT",
        "ALONGN~4.TXT",
        "ALONGN~5.TXT",
        "ALONGN~6.TXT",
        "ALONGN~7.TXT",
        "ALONGN~8.TXT",
        "ALONGN~9.TXT",
        "ALONG~10.TXT",
        "ALONG~11.TXT",
        "ALONG~12.TXT",
    ] {
        let borrowed: Vec<&str> = existing.iter().map(String::as_str).collect();
        let stored = build("a long name.txt", &borrowed).expect("build");
        assert_eq!(alias(&stored), expected);
        existing.push(alias(&stored));
    }

    // And on into three digits.
    let taken: Vec<String> = (1..=9)
        .map(|n| format!("ALONGN~{n}.TXT"))
        .chain((10..=99).map(|n| format!("ALONG~{n}.TXT")))
        .collect();
    let borrowed: Vec<&str> = taken.iter().map(String::as_str).collect();
    let stored = build("a long name.txt", &borrowed).expect("build");
    assert_eq!(alias(&stored), "ALON~100.TXT");
}

/// Characters illegal in a long name are refused rather than replaced,
/// because there is no form of the name left to store.
#[test]
fn reserved_characters_are_refused() {
    for name in [
        "bad*char.txt",
        "who?.txt",
        "a<b.txt",
        "pipe|.txt",
        "",
        ".",
        "..",
        "trailing.",
        "trailing ",
        " leading",
    ] {
        assert!(
            build(name, &[]).is_err(),
            "{name:?} should have been refused"
        );
    }
}

/// The slots are the reverse of reading order, carry the alias's
/// checksum, and terminate the name the way the format says.
#[test]
fn slots_are_stored_backwards_and_checksummed() {
    // Fourteen characters: one more than a slot holds, so two slots.
    let stored = build("fourteen chars", &[]).expect("build");
    assert_eq!(stored.slots.len(), 2);
    assert_eq!(stored.entries(), 3);

    let checksum = stored.short.checksum();
    assert_eq!(stored.slots[0][0], 0x40 | 2, "the last slot comes first");
    assert_eq!(stored.slots[1][0], 1);
    for slot in &stored.slots {
        assert_eq!(slot[0x0B], Attributes::LONG_NAME().bits());
        assert_eq!(slot[0x0D], checksum);
        assert_eq!(&slot[0x1A..0x1C], &[0, 0], "slots claim no cluster");
    }

    // Reading the characters back out in sequence order gives the name,
    // a NUL, then padding.
    let mut units = vec![];
    for slot in stored.slots.iter().rev() {
        for n in 0..13 {
            let at = char_offset(n);
            units.push(u16::from_le_bytes([slot[at], slot[at + 1]]));
        }
    }
    assert_eq!(
        String::from_utf16(&units[..14]).expect("utf16"),
        "fourteen chars"
    );
    assert_eq!(units[14], 0x0000, "the name is terminated");
    assert_eq!(&units[15..], &[0xFFFF; 11], "and then padded");
}

/// A name that exactly fills its slots has no terminator, which is the
/// case a reader looking for one gets wrong.
#[test]
fn an_exactly_filling_name_has_no_terminator() {
    let stored = build("thirteenchars", &[]).expect("build");
    assert_eq!(stored.slots.len(), 1);
    let slot = &stored.slots[0];
    let last = char_offset(12);
    assert_eq!(
        u16::from_le_bytes([slot[last], slot[last + 1]]),
        u16::from(b's'),
        "the thirteenth character reaches the end of the slot"
    );
}

/// The longest name the format holds fits, and one character more does
/// not.
#[test]
fn the_length_limit_is_the_formats() {
    let longest = "x".repeat(MAX_LONG_NAME);
    let stored = build(&longest, &[]).expect("255 characters is the limit");
    assert_eq!(stored.slots.len(), 20);
    assert!(build(&"x".repeat(MAX_LONG_NAME + 1), &[]).is_err());
}

/// What fits 8.3 shows as exactly the name it was made from, and a letter that
/// would come back as another does not fit.
#[test]
fn an_exact_name_shows_as_itself() {
    for name in ["A", "GAME.NES", "game.nes", "README", "12345678.ABC"] {
        let short = ShortName::from_8_3(name).expect("fits");
        assert_eq!(short.to_display_string(), name);
    }
    for name in ["\u{17F}", "\u{131}", "\u{17F}.TXT", "A.\u{131}", "Mixed", ""] {
        assert!(ShortName::from_8_3(name).is_none(), "{name}");
    }
    let stored = build("\u{17F}.txt", &[]).expect("is stored");
    assert_eq!(stored.slots.len(), 1);
}
