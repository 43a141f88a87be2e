use microscpi::command::{Command, CommandPath};

fn path(segments: &[&str]) -> CommandPath {
    segments.iter().map(|s| s.to_string()).collect()
}

#[test]
fn test_all_paths() {
    let cmd = Command::try_from("[STATus]:TIMe?").unwrap();
    let paths: Vec<CommandPath> = cmd.paths();

    // Ensure we generate all valid path combinations:
    // 1. With STATUS (long) + TIME (long)
    assert!(paths.iter().any(|p| *p == path(&["STATUS", "TIME"])));
    // 2. With STATUS (long) + TIM (short)
    assert!(paths.iter().any(|p| *p == path(&["STATUS", "TIM"])));
    // 3. With STAT (short) + TIME (long)
    assert!(paths.iter().any(|p| *p == path(&["STAT", "TIME"])));
    // 4. With STAT (short) + TIM (short)
    assert!(paths.iter().any(|p| *p == path(&["STAT", "TIM"])));
    // 5. With just TIME (long) - since STATUS is optional
    assert!(paths.iter().any(|p| *p == path(&["TIME"])));
    // 6. With just TIM (short) - since STATUS is optional
    assert!(paths.iter().any(|p| *p == path(&["TIM"])));
}

#[test]
fn test_is_query() {
    let cmd = Command::try_from("SYSTem:ERRor?").unwrap();
    assert!(cmd.is_query());

    let cmd = Command::try_from("SYSTem:ERRor").unwrap();
    assert!(!cmd.is_query());
}

#[test]
fn test_canonical_path() {
    let cmd = Command::try_from("[STATus]:TIMe?").unwrap();
    assert_eq!(cmd.canonical_path(), "STATUS:TIME?");

    let cmd = Command::try_from("SYSTem:ERRor:NEXT").unwrap();
    assert_eq!(cmd.canonical_path(), "SYSTEM:ERROR:NEXT");
}

#[test]
fn paths_come_in_order() {
    let cmd = Command::try_from("[STATus]:TIMe?").unwrap();
    assert_eq!(
        cmd.paths(),
        vec![
            path(&["STATUS", "TIME"]),
            path(&["STATUS", "TIM"]),
            path(&["STAT", "TIME"]),
            path(&["STAT", "TIM"]),
            path(&["TIME"]),
            path(&["TIM"]),
        ]
    );
}

#[test]
fn parts_have_short_and_long_forms() {
    let cmd = Command::try_from(" [SYSTem] : ERRor :: NEXT ").unwrap();
    assert_eq!(cmd.parts.len(), 3);
    assert!(cmd.parts[0].optional);
    assert_eq!(cmd.parts[0].short, "SYST");
    assert_eq!(cmd.parts[0].long, "SYSTEM");
    assert!(!cmd.parts[1].optional);
    assert_eq!(cmd.parts[1].short, "ERR");
    assert_eq!(cmd.parts[1].long, "ERROR");
    assert_eq!(cmd.parts[2].short, "NEXT");
    assert_eq!(cmd.parts[2].long, "NEXT");
    assert!(!cmd.is_query());
}

#[test]
fn a_part_that_is_all_upper_case_has_one_path() {
    let cmd = Command::try_from("*IDN?").unwrap();
    assert_eq!(cmd.paths(), vec![path(&["*IDN"])]);
    assert_eq!(cmd.canonical_path(), "*IDN?");
}

#[test]
fn the_empty_command_has_the_empty_path() {
    let cmd = Command::try_from("").unwrap();
    assert_eq!(cmd.parts.len(), 0);
    assert_eq!(cmd.paths(), vec![path(&[])]);
    assert_eq!(cmd.canonical_path(), "");
    let cmd = Command::try_from("?").unwrap();
    assert!(cmd.is_query());
    assert_eq!(cmd.canonical_path(), "?");
}

#[test]
fn brackets_alone_are_an_empty_optional_part() {
    let cmd = Command::try_from("[]:A").unwrap();
    assert_eq!(cmd.parts.len(), 2);
    assert!(cmd.parts[0].optional);
    assert_eq!(cmd.parts[0].long, "");
    // An empty text is joined without a colon.
    assert_eq!(cmd.canonical_path(), "A");
}
