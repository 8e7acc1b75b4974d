use ew::app::App;
use ew::person::Person;

fn chars(s: &str) -> Vec<char> {
    s.chars().collect()
}

fn text(v: &Vec<char>) -> String {
    v.iter().collect()
}

fn names(app: &App) -> Vec<String> {
    app.config.person.iter().map(|p| text(&p.name)).collect()
}

#[test]
fn fresh_start_default_file() {
    // a missing file yields the default configuration, and its
    // serialized form records the empty roster, the default format
    // and auto-sort enabled
    let app = App::new(None);
    assert_eq!(
        text(&app.write()),
        "person = []\ndate_fmt = \"%H:%M %z    %a %b %d %Y\"\nsort = true\n"
    );
}

#[test]
fn round_trip_entries_and_settings() {
    let mut app = App::new(None);
    app.add(Person::new("Charlie", "Europe/Berlin"));
    app.add(Person::new("alice", "America/New_York"));
    app.add(Person::new("Bob", "UTC"));
    let written = app.write();
    let reread = App::new(Some(&text(&written)));
    assert_eq!(names(&reread), names(&app));
    assert_eq!(reread.config.date_fmt, app.config.date_fmt);
    assert_eq!(reread.config.sort, app.config.sort);
    assert_eq!(text(&reread.write()), text(&written));
}

#[test]
fn round_trip_awkward_characters() {
    let mut app = App::new(None);
    app.add(Person::new("a\"b\\c\nd\te", "Not/AZone"));
    let written = app.write();
    let reread = App::new(Some(&text(&written)));
    assert_eq!(names(&reread), vec!["a\"b\\c\nd\te".to_string()]);
    assert_eq!(text(&reread.config.person[0].tz), "Not/AZone");
}

#[test]
fn unparsable_file_falls_back_to_default() {
    let app = App::new(Some("this is not the expected shape\n"));
    assert_eq!(app.config.person.len(), 0);
    assert_eq!(text(app.config.date_fmt.as_ref().unwrap()), "%H:%M %z    %a %b %d %Y");
    assert_eq!(app.config.sort, Some(true));
}

#[test]
fn add_keeps_roster_sorted() {
    let mut app = App::new(None);
    app.add(Person::new("bob", "UTC"));
    app.add(Person::new("alice", "UTC"));
    app.add(Person::new("zed", "UTC"));
    assert_eq!(names(&app), vec!["alice", "bob", "zed"]);
    app.rm("bob");
    assert_eq!(names(&app), vec!["alice", "zed"]);
}

#[test]
fn sort_is_byte_order_on_names() {
    let mut app = App::new(None);
    app.add(Person::new("alice", "UTC"));
    app.add(Person::new("Charlie", "UTC"));
    // upper-case letters come before lower-case ones in byte order
    assert_eq!(names(&app), vec!["Charlie", "alice"]);
}

#[test]
fn remove_is_case_insensitive() {
    let mut app = App::new(None);
    app.add(Person::new("Alice", "UTC"));
    app.rm("alice");
    assert_eq!(app.config.person.len(), 0);
}

#[test]
fn remove_absent_changes_nothing() {
    let mut app = App::new(None);
    app.add(Person::new("alice", "UTC"));
    app.add(Person::new("bob", "UTC"));
    let before = text(&app.write());
    app.rm("carol");
    assert_eq!(text(&app.write()), before);
    assert_eq!(names(&app), vec!["alice", "bob"]);
}

#[test]
fn remove_takes_first_match_only() {
    let mut app = App::new(None);
    app.add(Person::new("alice", "UTC"));
    app.add(Person::new("Alice", "Europe/Berlin"));
    app.rm("ALICE");
    assert_eq!(app.config.person.len(), 1);
}

#[test]
fn empty_listing_prints_notice() {
    let mut app = App::new(None);
    let lines = app.list();
    assert_eq!(lines.len(), 1);
    assert_eq!(text(&lines[0]), "no entries!");
}

#[test]
fn listing_pads_names_to_common_column() {
    // a literal format string passes through strftime unchanged, so
    // the whole line is predictable
    let file = "date_fmt = \"XYZ\"\n\n[[person]]\nname = \"A\"\ntz = \"UTC\"\n\n[[person]]\nname = \"Bob\"\ntz = \"UTC\"\n";
    let mut app = App::new(Some(file));
    let lines = app.list();
    assert_eq!(lines.len(), 2);
    // column width is the longest name plus four
    assert_eq!(text(&lines[0]), "A      XYZ");
    assert_eq!(text(&lines[1]), "Bob    XYZ");
}

#[test]
fn invalid_timezone_reported_without_stopping() {
    let file = "date_fmt = \"XYZ\"\n\n[[person]]\nname = \"ann\"\ntz = \"Not/AZone\"\n\n[[person]]\nname = \"bo\"\ntz = \"UTC\"\n";
    let mut app = App::new(Some(file));
    let lines = app.list();
    assert_eq!(lines.len(), 2);
    assert_eq!(text(&lines[0]), "invalid tz Not/AZone for ann");
    assert_eq!(text(&lines[1]), "bo     XYZ");
}

#[test]
fn listing_sorts_when_auto_sort_enabled() {
    let file = "date_fmt = \"XYZ\"\n\n[[person]]\nname = \"bo\"\ntz = \"UTC\"\n\n[[person]]\nname = \"al\"\ntz = \"UTC\"\n";
    let mut app = App::new(Some(file));
    let lines = app.list();
    assert_eq!(text(&lines[0]), "al    XYZ");
    assert_eq!(text(&lines[1]), "bo    XYZ");
}

#[test]
fn listing_keeps_file_order_when_auto_sort_disabled() {
    let file = "date_fmt = \"XYZ\"\nsort = false\n\n[[person]]\nname = \"bo\"\ntz = \"UTC\"\n\n[[person]]\nname = \"al\"\ntz = \"UTC\"\n";
    let mut app = App::new(Some(file));
    let lines = app.list();
    assert_eq!(text(&lines[0]), "bo    XYZ");
    assert_eq!(text(&lines[1]), "al    XYZ");
}

#[test]
fn absent_sort_key_counts_as_enabled() {
    let file = "[[person]]\nname = \"bo\"\ntz = \"UTC\"\n";
    let mut app = App::new(Some(file));
    app.add(Person::new("al", "UTC"));
    assert_eq!(names(&app), vec!["al", "bo"]);
}

#[test]
fn default_format_used_when_file_has_none() {
    // the default strftime format renders a zero-padded 24-hour
    // time, an offset, and the date; for UTC the offset is +0000
    let file = "[[person]]\nname = \"al\"\ntz = \"UTC\"\n";
    let mut app = App::new(Some(file));
    let lines = app.list();
    assert_eq!(lines.len(), 1);
    let line = text(&lines[0]);
    assert_eq!(&line[..6], "al    ");
    assert_eq!(&line[8..9], ":");
    assert_eq!(&line[12..17], "+0000");
}
