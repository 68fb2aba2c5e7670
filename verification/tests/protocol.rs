use geolookup::addr::parse_ipv4;
use geolookup::index::RangeIndex;
use geolookup::session::{
    lookup_reply, parse_command, render_payload, status_reply, Command, LookupOutcome, Session,
};

fn v(s: &[u8]) -> Vec<u8> {
    s.to_vec()
}

fn row(start: &str, end: &str, cc: &str, city: &str) -> Vec<u8> {
    format!("{},{},\"{}\",\"name\",\"\",\"{}\",\"\",\"\"", start, end, cc, city).into_bytes()
}

fn located(outcome: LookupOutcome) -> Vec<u8> {
    match outcome {
        LookupOutcome::Located(p) => render_payload(&p),
        other => panic!("expected a located payload, got {:?}", other),
    }
}

#[test]
fn command_words_parse() {
    assert_eq!(parse_command(&v(b"LOAD")), Command::Load);
    assert_eq!(parse_command(&v(b"  LOAD  \n")), Command::Load);
    assert_eq!(parse_command(&v(b"EXIT")), Command::Exit);
    assert_eq!(parse_command(&v(b"EXIT\r\n")), Command::Exit);
    assert_eq!(parse_command(&v(b"LOOKUP 1.0.0.1")), Command::Lookup(16777217));
    assert_eq!(parse_command(&v(b"LOOKUP\t8.8.8.8\n")), Command::Lookup(134744072));
}

#[test]
fn bad_commands_are_invalid() {
    assert_eq!(parse_command(&v(b"BOGUS")), Command::Invalid);
    assert_eq!(parse_command(&v(b"LOOKUP not-an-ip")), Command::Invalid);
    assert_eq!(parse_command(&v(b"LOOKUP")), Command::Invalid);
    assert_eq!(parse_command(&v(b"LOOKUP 1.2.3.4 extra")), Command::Invalid);
    assert_eq!(parse_command(&v(b"LOAD now")), Command::Invalid);
    assert_eq!(parse_command(&v(b"load")), Command::Invalid);
    assert_eq!(parse_command(&v(b"")), Command::Invalid);
    assert_eq!(parse_command(&v(b"   ")), Command::Invalid);
}

#[test]
fn lookup_before_any_load_is_no_database() {
    let session = Session::new();
    assert!(matches!(session.lookup(0), LookupOutcome::NoDatabase));
    assert!(matches!(session.lookup(16777217), LookupOutcome::NoDatabase));
    assert!(matches!(session.lookup(u32::MAX), LookupOutcome::NoDatabase));
}

#[test]
fn mountain_view_scenario() {
    let mut session = Session::new();
    let lines = vec![v(
        b"16777216,33554431,\"US\",\"United States\",\"\",  \"Mountain View\"  ,\"\",\"\"",
    )];
    assert!(session.load(Some(&lines)));
    let addr = match parse_command(&v(b"LOOKUP 1.0.0.1")) {
        Command::Lookup(a) => a,
        other => panic!("expected a lookup command, got {:?}", other),
    };
    assert_eq!(located(session.lookup(addr)), v(b"US,Mountain View"));
    let outside = match parse_command(&v(b"LOOKUP 2.0.0.1")) {
        Command::Lookup(a) => a,
        other => panic!("expected a lookup command, got {:?}", other),
    };
    assert!(matches!(session.lookup(outside), LookupOutcome::NotFound));
}

#[test]
fn empty_source_loads_and_answers_not_found() {
    let mut session = Session::new();
    let lines: Vec<Vec<u8>> = Vec::new();
    assert!(session.load(Some(&lines)));
    assert!(matches!(session.lookup(0), LookupOutcome::NotFound));
    assert!(matches!(session.lookup(16777217), LookupOutcome::NotFound));
}

#[test]
fn failed_load_keeps_previous_answers() {
    let mut session = Session::new();
    let lines = vec![row("100", "200", "FR", "Paris")];
    assert!(session.load(Some(&lines)));
    let before = located(session.lookup(150));
    assert!(!session.load(None));
    assert_eq!(located(session.lookup(150)), before);
    assert_eq!(before, v(b"FR,Paris"));
    assert!(matches!(session.lookup(201), LookupOutcome::NotFound));
}

#[test]
fn failed_load_on_fresh_session_stays_unloaded() {
    let mut session = Session::new();
    assert!(!session.load(None));
    assert!(matches!(session.lookup(150), LookupOutcome::NoDatabase));
}

#[test]
fn reloading_the_same_source_answers_identically() {
    let mut session = Session::new();
    let lines = vec![row("10", "20", "AA", "CityA"), row("30", "40", "BB", "CityB")];
    assert!(session.load(Some(&lines)));
    let first = located(session.lookup(15));
    assert!(session.load(Some(&lines)));
    assert_eq!(located(session.lookup(15)), first);
    assert_eq!(located(session.lookup(35)), v(b"BB,CityB"));
    assert!(matches!(session.lookup(25), LookupOutcome::NotFound));
}

#[test]
fn malformed_rows_never_abort_a_load() {
    let mut session = Session::new();
    let lines = vec![
        v(b"1,2,US,name,u"),
        v(b"one,2,US,name,u,City,x,y"),
        row("10", "20", "AA", "CityA"),
        v(b"20,10,ZZ,name,u,Nowhere,x,y"),
    ];
    assert!(session.load(Some(&lines)));
    assert_eq!(located(session.lookup(10)), v(b"AA,CityA"));
    assert!(matches!(session.lookup(5), LookupOutcome::NotFound));
}

#[test]
fn exit_command_parses_and_is_acknowledged() {
    // the session machine hands `Exit` to the caller, which replies OK
    // and stops reading; no state is touched by it
    assert_eq!(parse_command(&v(b"EXIT")), Command::Exit);
    let session = Session::new();
    assert!(matches!(session.lookup(1), LookupOutcome::NoDatabase));
}

#[test]
fn full_session_walkthrough() {
    let mut session = Session::new();
    let lines = vec![v(
        b"16777216,33554431,\"US\",\"United States\",\"\",  \"Mountain View\"  ,\"\",\"\"",
    )];

    // LOOKUP before any load: ERR, session keeps serving
    let (reply, on) = session.step(&parse_command(&v(b"LOOKUP 1.0.0.1")), None);
    assert_eq!((reply, on), (v(b"ERR"), true));

    // failed LOAD (unreadable source): ERR, state untouched
    let (reply, on) = session.step(&parse_command(&v(b"LOAD")), None);
    assert_eq!((reply, on), (v(b"ERR"), true));
    let (reply, _) = session.step(&parse_command(&v(b"LOOKUP 1.0.0.1")), None);
    assert_eq!(reply, v(b"ERR"));

    // successful LOAD, then a hit, a miss, and a bad line
    let (reply, on) = session.step(&parse_command(&v(b"LOAD")), Some(&lines));
    assert_eq!((reply, on), (v(b"OK"), true));
    let (reply, _) = session.step(&parse_command(&v(b"LOOKUP 1.0.0.1")), None);
    assert_eq!(reply, v(b"US,Mountain View"));
    let (reply, _) = session.step(&parse_command(&v(b"LOOKUP 2.0.0.1")), None);
    assert_eq!(reply, v(b"ERR"));
    let (reply, on) = session.step(&parse_command(&v(b"BOGUS")), None);
    assert_eq!((reply, on), (v(b"ERR"), true));

    // a later failed LOAD keeps the loaded index answering
    let (reply, _) = session.step(&parse_command(&v(b"LOAD")), None);
    assert_eq!(reply, v(b"ERR"));
    let (reply, _) = session.step(&parse_command(&v(b"LOOKUP 1.0.0.1")), None);
    assert_eq!(reply, v(b"US,Mountain View"));

    // EXIT: OK, and the loop stops
    let (reply, on) = session.step(&parse_command(&v(b"EXIT")), None);
    assert_eq!((reply, on), (v(b"OK"), false));
}

#[test]
fn reply_lines_follow_the_protocol() {
    assert_eq!(status_reply(true), v(b"OK"));
    assert_eq!(status_reply(false), v(b"ERR"));
    let mut session = Session::new();
    assert_eq!(lookup_reply(&session.lookup(150)), v(b"ERR"));
    let lines = vec![row("100", "200", "FR", "Paris")];
    assert!(session.load(Some(&lines)));
    assert_eq!(lookup_reply(&session.lookup(150)), v(b"FR,Paris"));
    assert_eq!(lookup_reply(&session.lookup(99)), v(b"ERR"));
}

#[test]
fn inclusive_bounds_on_both_ends() {
    let index = RangeIndex::build(&vec![row("100", "200", "FR", "Paris")]);
    assert_eq!(render_payload(&index.lookup(100).unwrap()), v(b"FR,Paris"));
    assert_eq!(render_payload(&index.lookup(200).unwrap()), v(b"FR,Paris"));
    assert_eq!(render_payload(&index.lookup(150).unwrap()), v(b"FR,Paris"));
    assert!(index.lookup(99).is_none());
    assert!(index.lookup(201).is_none());
}

#[test]
fn first_match_wins_on_overlap() {
    let index = RangeIndex::build(&vec![
        row("10", "20", "AA", "CityA"),
        row("15", "30", "BB", "CityB"),
    ]);
    assert_eq!(render_payload(&index.lookup(16).unwrap()), v(b"AA,CityA"));
    assert_eq!(render_payload(&index.lookup(21).unwrap()), v(b"BB,CityB"));
    assert!(index.lookup(31).is_none());
}

#[test]
fn addresses_compose_most_significant_octet_first() {
    // 1.0.0.0 is 1 * 2^24: the integer bounds in rows and the parsed
    // dotted quads meet in the same network-order encoding
    assert_eq!(parse_ipv4(&v(b"1.0.0.0")), Some(16777216));
    let index = RangeIndex::build(&vec![row("16777216", "16777216", "US", "One")]);
    assert!(index.lookup(parse_ipv4(&v(b"1.0.0.0")).unwrap()).is_some());
    assert!(index.lookup(parse_ipv4(&v(b"1.0.0.1")).unwrap()).is_none());
}
