use planner::{Container, Entry, EntryTrait, ListView, Storage};

fn entry(target: &str, time: &str) -> Entry {
    match Entry::try_from(target, time) {
        Ok(entry) => entry,
        Err(error) => panic!("no entry: {}", error.to_string()),
    }
}

fn pairs(list: &Vec<Entry>) -> Vec<(String, String)> {
    list.iter().map(|e| (e.time().to_string(), e.target().to_string())).collect()
}

fn pair(time: &str, target: &str) -> (String, String) {
    (time.to_string(), target.to_string())
}

fn save(storage: &Storage, file: Option<&str>, entry: Entry) -> String {
    assert!(storage.accepts(file, &entry));
    storage.save(file, entry)
}

#[test]
fn storage_keeps_its_path() {
    assert_eq!(Storage::new("./my-planner.txt").path(), "./my-planner.txt");
    assert_eq!(Storage::new("").path(), "");
    assert_eq!(Storage::new("план.txt").path(), "план.txt");
}

#[test]
fn container_holds_the_default_storage() {
    let container = Container::default();
    assert_eq!(container.storage().path(), "./my-planner.txt");
    let shown = container.list_view().render(&Vec::new());
    assert_eq!(shown, ListView.render(&Vec::new()));
}

#[test]
fn reading_without_a_file_asks_for_an_empty_one() {
    let storage = Storage::new("p.txt");
    let first = storage.read(None);
    assert!(first.create);
    assert!(first.entries.is_empty());
    let second = storage.read(Some(""));
    assert!(!second.create);
    assert!(second.entries.is_empty());
}

#[test]
fn reading_gives_the_entries_in_the_order_of_the_file() {
    let storage = Storage::new("p.txt");
    let reading = storage.read(Some("14:30\nMeeting\n\n9:00\nCall mom\n\n"));
    assert!(!reading.create);
    assert_eq!(pairs(&reading.entries), vec![pair("14:30", "Meeting"), pair("9:00", "Call mom")]);
}

#[test]
fn block_of_one_line_is_passed_over() {
    let storage = Storage::new("p.txt");
    let reading = storage.read(Some("9:00\nCall mom\n\nonly one line\n\n14:30\nMeeting\n\n"));
    assert_eq!(pairs(&reading.entries), vec![pair("9:00", "Call mom"), pair("14:30", "Meeting")]);
    assert!(storage.read(Some("only one line\n\n")).entries.is_empty());
    assert!(storage.read(Some("only one line")).entries.is_empty());
    assert!(storage.read(Some("\n\n\n\n\n")).entries.is_empty());
}

#[test]
fn reading_is_lenient_about_the_shape_of_the_file() {
    let storage = Storage::new("p.txt");
    let unfinished = storage.read(Some("9:00\nCall mom"));
    assert_eq!(pairs(&unfinished.entries), vec![pair("9:00", "Call mom")]);
    let spaced = storage.read(Some("  9:00\nCall mom  \n\n\n\n 14:30\nMeeting\nat the office\n\n"));
    assert_eq!(
        pairs(&spaced.entries),
        vec![pair("9:00", "Call mom"), pair("14:30", "Meeting\nat the office")]
    );
    let odd = storage.read(Some("a\n\n\nb\nc"));
    assert_eq!(pairs(&odd.entries), vec![pair("b", "c")]);
    let unchecked = storage.read(Some("soon\nwhatever\n\n"));
    assert_eq!(pairs(&unchecked.entries), vec![pair("soon", "whatever")]);
}

#[test]
fn reading_cuts_as_the_standard_library_does() {
    let storage = Storage::new("p.txt");
    for content in [
        "",
        "\n",
        "\n\n",
        "\n\n\n",
        "a\nb",
        "a\nb\n",
        "a\nb\n\n",
        "a\nb\n\n\n",
        "a\nb\n\n\nc\nd",
        "a\n\nb\nc\n\n\n\nd\ne\n\n",
        " a \n b \n\n c\n\n\nd \n\n e",
        "x\n\ny\n\nz",
    ] {
        let mut expected = Vec::new();
        for block in content.split_terminator("\n\n") {
            if let Some((time, target)) = block.trim().split_once('\n') {
                expected.push(pair(time, target));
            }
        }
        assert_eq!(pairs(&storage.read(Some(content)).entries), expected, "{:?}", content);
    }
}

#[test]
fn first_save_writes_the_entry() {
    let storage = Storage::new("p.txt");
    assert_eq!(save(&storage, None, entry("Buy milk", "9:5")), "9:05\nBuy milk\n\n");
    assert_eq!(save(&storage, Some(""), entry("Buy milk", "9:5")), "9:05\nBuy milk\n\n");
}

#[test]
fn earlier_entry_is_put_first() {
    let storage = Storage::new("p.txt");
    let first = save(&storage, None, entry("Meeting", "14:30"));
    let second = save(&storage, Some(&first), entry("Call mom", "09:00"));
    assert_eq!(second, "9:00\nCall mom\n\n14:30\nMeeting\n\n");
    let listed = ListView.render(&storage.read(Some(&second)).entries);
    let mom = listed.find("Call mom").unwrap();
    let meeting = listed.find("Meeting").unwrap();
    assert!(mom < meeting);
}

#[test]
fn entries_of_one_time_keep_their_order() {
    let storage = Storage::new("p.txt");
    let mut file: Option<String> = None;
    for (task, time) in [("b", "9:30"), ("a", "9:30"), ("z", "8:00"), ("c", "09:30"), ("y", "8:0")] {
        file = Some(save(&storage, file.as_deref(), entry(task, time)));
    }
    assert_eq!(file.unwrap(), "8:00\nz\n\n8:00\ny\n\n9:30\nb\n\n9:30\na\n\n9:30\nc\n\n");
}

#[test]
fn saving_puts_a_file_in_order() {
    let storage = Storage::new("p.txt");
    let content = "23:59\nlate\n\n9:05\nearly\n\n10:00\nten\n\n9:59\nbefore ten\n\n";
    let saved = save(&storage, Some(content), entry("noon", "12:00"));
    assert_eq!(
        saved,
        "9:05\nearly\n\n9:59\nbefore ten\n\n10:00\nten\n\n12:00\nnoon\n\n23:59\nlate\n\n"
    );
}

#[test]
fn saving_drops_what_is_no_entry() {
    let storage = Storage::new("p.txt");
    let saved = save(&storage, Some("only one line\n\n 9:00\nCall mom "), entry("Meeting", "8:00"));
    assert_eq!(saved, "8:00\nMeeting\n\n9:00\nCall mom\n\n");
}

#[test]
fn saving_is_the_stable_sort_of_the_standard_library() {
    let storage = Storage::new("p.txt");
    let entries = [
        ("k", "12:00"), ("a", "0:00"), ("b", "23:59"), ("c", "12:00"), ("d", "7:07"),
        ("e", "07:7"), ("f", "19:19"), ("g", "0:0"), ("h", "10:00"), ("i", "9:59"),
    ];
    let mut file: Option<String> = None;
    let mut expected: Vec<(String, String)> = Vec::new();
    for (task, time) in entries {
        let made = entry(task, time);
        expected.push(pair(made.time(), made.target()));
        expected.sort_by_key(|(time, _)| time.replace(':', "").parse::<i32>().unwrap());
        file = Some(save(&storage, file.as_deref(), made));
        assert_eq!(pairs(&storage.read(file.as_deref()).entries), expected);
    }
    assert_eq!(expected.len(), 10);
}

#[test]
fn entry_saves_itself() {
    let storage = Storage::new("p.txt");
    let made = entry("Meeting", "14:30");
    assert!(storage.accepts(Some("9:00\nCall mom\n\n"), &made));
    let content = made.save(&storage, Some("9:00\nCall mom\n\n"));
    assert_eq!(content, "9:00\nCall mom\n\n14:30\nMeeting\n\n");
    assert_eq!(made.target(), "Meeting");
}

#[test]
fn entry_without_a_number_cannot_be_put_among_others() {
    let storage = Storage::new("p.txt");
    assert!(!storage.accepts(Some("soon\nwhatever\n\n"), &entry("Meeting", "14:30")));
    assert!(!storage.accepts(Some("9:00\nCall mom\n\n9:30am\nx\n\n"), &entry("Meeting", "14:30")));
    assert!(!storage.accepts(Some("9:00\nCall mom\n\n"), &Entry::default()));
    assert!(storage.accepts(Some("9:00\nCall mom\n\n1:2:3\nx\n\n"), &entry("Meeting", "14:30")));
    assert!(storage.accepts(Some("-1:00\nx\n\n"), &entry("Meeting", "14:30")));
}

#[test]
fn single_entry_needs_no_number() {
    let storage = Storage::new("p.txt");
    assert!(storage.accepts(None, &Entry::default()));
    assert!(storage.accepts(Some("only one line\n\n"), &Entry::default()));
    assert_eq!(storage.save(None, Entry::default()), "\n\n\n");
}

#[test]
fn times_with_a_sign_are_put_in_order_too() {
    let storage = Storage::new("p.txt");
    let saved = save(&storage, Some("+1:00\nplus\n\n-1:00\nminus\n\n"), entry("zero", "0:30"));
    assert_eq!(saved, "-1:00\nminus\n\n0:30\nzero\n\n+1:00\nplus\n\n");
}

#[test]
fn notice_confirms_the_save() {
    assert_eq!(Storage::new("p.txt").notice(), "Saved\n====================================\n");
}

#[test]
fn listing_of_nothing() {
    assert_eq!(
        ListView.render(&Vec::new()),
        "====================================\nМое расписание:\n\n\n====================================\n"
    );
    assert_eq!(ListView::default().render(&Vec::new()), ListView.render(&Vec::new()));
}

#[test]
fn listing_of_one_entry() {
    assert_eq!(
        ListView.render(&vec![entry("Buy milk", "9:5")]),
        "====================================\nМое расписание:\n\nВремя: 9:05\nЗадача: Buy milk\n\n====================================\n"
    );
}

#[test]
fn listing_draws_a_rule_between_entries() {
    let list = vec![entry("Call mom", "9:00"), entry("Meeting", "14:30"), entry("Sleep", "23:00")];
    let expected = list
        .iter()
        .map(|e| e.to_string())
        .collect::<Vec<String>>()
        .join("--------------------------\n");
    assert_eq!(
        ListView.render(&list),
        format!(
            "====================================\nМое расписание:\n\n{}\n====================================\n",
            expected
        )
    );
    assert_eq!(ListView.render(&list).matches("--------------------------\n").count(), 2);
}
