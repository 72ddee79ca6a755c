use silo::record::{encode, Operation};
use silo::{Command, Database, Error, Reply};

fn strings(lines: &[&str]) -> Vec<String> {
    lines.iter().map(|line| line.to_string()).collect()
}

#[test]
fn lines_are_read_as_commands() {
    assert_eq!(Command::parse("exit"), Command::Exit);
    assert_eq!(Command::parse("get k"), Command::Get("k".to_string()));
    assert_eq!(Command::parse("get a b"), Command::Get("a b".to_string()));
    assert_eq!(Command::parse("get "), Command::Get(String::new()));
    assert_eq!(Command::parse("set k v"), Command::Put("k".to_string(), "v".to_string()));
    assert_eq!(
        Command::parse("set k a value with spaces "),
        Command::Put("k".to_string(), "a value with spaces ".to_string())
    );
    assert_eq!(Command::parse("set  v"), Command::Put(String::new(), "v".to_string()));
    assert_eq!(Command::parse("set k "), Command::Put("k".to_string(), String::new()));
    assert_eq!(Command::parse("del k"), Command::Delete("k".to_string()));
    assert_eq!(Command::parse("del ä ö"), Command::Delete("ä ö".to_string()));
}

#[test]
fn other_lines_are_unsupported() {
    for line in [
        "", "get", "set", "del", "exit ", " exit", "exit now", "put k v", "GET k", " get k",
        "déjà vu", "set k", "set ",
    ] {
        assert_eq!(Command::parse(line), Command::Unsupported, "{line:?}");
    }
}

#[test]
fn commands_are_carried_out_and_answered() {
    let mut database = Database::open(vec![(1, Vec::new())], 1000).unwrap();
    let reply = |text: &str| Ok(Reply { text: text.to_string(), exit: false });
    assert_eq!(database.execute(&Command::parse("get k")), reply("-> null"));
    assert_eq!(database.execute(&Command::parse("set k some value")), reply("-> set k"));
    assert_eq!(database.execute(&Command::parse("get k")), reply("-> some value"));
    assert_eq!(database.get("k"), Ok(Some("some value".to_string())));
    assert_eq!(database.execute(&Command::parse("del k")), reply("-> deleted k"));
    assert_eq!(database.execute(&Command::parse("get k")), reply("-> null"));
    assert_eq!(database.execute(&Command::parse("set k")), reply("-> err: unsupported command"));
    assert_eq!(database.get("k"), Ok(None));
    assert_eq!(database.execute(&Command::parse("nonsense")), reply("-> err: unsupported command"));
    assert_eq!(
        database.execute(&Command::parse("exit")),
        Ok(Reply { text: "-> exiting".to_string(), exit: true })
    );
}

#[test]
fn a_refused_command_changes_nothing() {
    let mut database = Database::open(vec![(1, Vec::new())], 1000).unwrap();
    database.set("k", "v").unwrap();
    let size = database.segment(0).size();
    let big = "x".repeat(64 * 1024 * 1024 + 1);
    assert_eq!(database.execute(&Command::Put("k".to_string(), big.clone())), Err(Error::FieldTooLarge));
    assert_eq!(database.execute(&Command::Delete(big)), Err(Error::FieldTooLarge));
    assert_eq!(database.segment(0).size(), size);
}

#[test]
fn a_session_runs_to_its_exit() {
    let mut database = Database::start(Vec::new()).unwrap();
    let lines = strings(&[
        "set hello sun",
        "set goodbye moon",
        "get hello",
        "get missing",
        "del hello",
        "get hello",
        "del hello",
        "what",
        "set lonely",
        "exit",
        "set after exit",
    ]);
    assert_eq!(
        database.repl(&lines),
        Ok(strings(&[
            "-> set hello",
            "-> set goodbye",
            "-> sun",
            "-> null",
            "-> deleted hello",
            "-> null",
            "-> deleted hello",
            "-> err: unsupported command",
            "-> err: unsupported command",
            "-> exiting",
        ]))
    );
    assert_eq!(database.get("goodbye"), Ok(Some("moon".to_string())));
    assert_eq!(database.get("after"), Ok(None));
}

#[test]
fn a_session_without_exit_runs_to_the_end_of_its_lines() {
    let mut database = Database::start(Vec::new()).unwrap();
    assert_eq!(database.repl(&Vec::new()), Ok(Vec::new()));
    assert_eq!(database.repl(&strings(&["set a 1", "get a"])), Ok(strings(&["-> set a", "-> 1"])));
}

#[test]
fn a_session_ends_at_a_refused_command() {
    let mut database = Database::start(Vec::new()).unwrap();
    let big = format!("set k {}", "x".repeat(64 * 1024 * 1024 + 1));
    let lines = vec!["set a 1".to_string(), big, "set b 2".to_string()];
    assert_eq!(database.repl(&lines), Err(Error::FieldTooLarge));
    assert_eq!(database.get("a"), Ok(Some("1".to_string())));
    assert_eq!(database.get("k"), Ok(None));
    assert_eq!(database.get("b"), Ok(None));
}

#[test]
fn a_command_names_the_record_it_appends() {
    assert_eq!(
        Command::parse("set k some value").record(9),
        Some(encode("k", &Operation::Put("some value".to_string()), 9))
    );
    assert_eq!(Command::parse("del k").record(9), Some(encode("k", &Operation::Delete, 9)));
    assert_eq!(Command::parse("get k").record(9), None);
    assert_eq!(Command::parse("exit").record(9), None);
    assert_eq!(Command::parse("set k").record(9), None);
    assert_eq!(Command::parse("what").record(9), None);
    let big = "x".repeat(64 * 1024 * 1024 + 1);
    assert_eq!(Command::Put("k".to_string(), big.clone()).record(9), None);
    assert_eq!(Command::Put(big.clone(), "v".to_string()).record(9), None);
    assert_eq!(Command::Delete(big).record(9), None);
}

#[test]
fn a_command_at_a_given_time_appends_its_record_to_the_tail() {
    let mut database = Database::open(vec![(10, Vec::new())], 60).unwrap();
    let mut expected = Vec::new();
    for (line, time) in [("set a 1", 1), ("get a", 2), ("del a", 3), ("nonsense", 4), ("set b 2", 5)] {
        let command = Command::parse(line);
        if let Some(record) = command.record(time) {
            expected.extend_from_slice(&record);
        }
        database.execute_at(&command, time, 77).unwrap();
    }
    assert_eq!(database.segment_count(), 2);
    assert_eq!(database.segment(0).as_bytes(), &expected[..]);
    assert_eq!(database.segment(1).id(), 77);
    assert_eq!(database.segment(1).size(), 0);
    assert_eq!(database.get("a"), Ok(None));
    assert_eq!(database.get("b"), Ok(Some("2".to_string())));
}
