use burrow_db::cli::{parse_line, parse_words, Command, Reply, CLI};
use burrow_db::BurrowDB;

#[test]
fn put_then_get() {
    let mut db = BurrowDB::new();
    assert_eq!(db.get("name"), None);
    db.put("name".to_string(), "Alice".to_string());
    assert_eq!(db.get("name"), Some("Alice"));
    db.put("name".to_string(), "Bob".to_string());
    assert_eq!(db.get("name"), Some("Bob"));
    assert_eq!(db.get("other"), None);
}

#[test]
fn parse_commands() {
    assert!(matches!(parse_line("PUT name Alice"), Command::Put(k, v) if k == "name" && v == "Alice"));
    assert!(matches!(parse_line("PUT  name   Alice   Smith "), Command::Put(k, v) if k == "name" && v == "Alice Smith"));
    assert!(matches!(parse_line("GET name"), Command::Get(k) if k == "name"));
    assert!(matches!(parse_line("LIST"), Command::List));
    assert!(matches!(parse_line("HELP"), Command::Help));
    assert!(matches!(parse_line("EXIT"), Command::Exit));
    assert!(matches!(parse_line("QUIT"), Command::Exit));
    assert!(matches!(parse_line("PUT name"), Command::Put(k, v) if k == "name" && v.is_empty()));
    assert!(matches!(parse_line("GET"), Command::Unknown));
    assert!(matches!(parse_line("get name"), Command::Unknown));
    assert!(matches!(parse_line(""), Command::Unknown));
    assert!(matches!(parse_words(&vec!["LIST".to_string(), "x".to_string()]), Command::Unknown));
}

#[test]
fn session_handles_commands() {
    let mut db = BurrowDB::new();
    {
        let mut cli = CLI::new(&mut db);
        assert!(matches!(cli.handle(parse_line("PUT a 1 2")), Reply::Stored(k, v) if k == "a" && v == "1 2"));
        assert!(matches!(cli.handle(parse_line("GET a")), Reply::Found(k, v) if k == "a" && v == "1 2"));
        assert!(matches!(cli.handle(parse_line("GET b")), Reply::Missing(k) if k == "b"));
        assert!(matches!(cli.handle(Command::List), Reply::ListUnavailable));
        assert!(matches!(cli.handle(Command::Help), Reply::Help));
        assert!(matches!(cli.handle(Command::Exit), Reply::Goodbye));
        assert!(matches!(cli.handle(Command::Unknown), Reply::Unknown));
    }
    assert_eq!(db.get("a"), Some("1 2"));
}

#[test]
fn put_without_value_stores_empty_text() {
    let mut db = BurrowDB::new();
    {
        let mut cli = CLI::new(&mut db);
        assert!(matches!(cli.handle(parse_line("PUT greeting hello  big   world")), Reply::Stored(..)));
        assert!(matches!(cli.handle(parse_line("PUT k")), Reply::Stored(k, v) if k == "k" && v.is_empty()));
        assert_eq!(cli.store().get("k"), Some(""));
    }
    assert_eq!(db.get("greeting"), Some("hello big world"));
    assert_eq!(db.get("k"), Some(""));
}
