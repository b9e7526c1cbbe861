use nea::config::{load_step, Config, LoadStep};
use nea::index::IoResources;
use nea::log::{format_line, format_log, has_date, init, is_enabled, DateTime, Level};
use nea::roc_app::roc_main;
use nea::runner::{request_file, siege_arguments, siege_succeeded, Implementation};
use nea::server::{
    after_stream, claim_bucket, read_input, reply, Input, StreamOutcome, WorkerStep,
};
use nea::shared::allocator::{Layout, ServerAlloc};
use nea::shared::indexer::Indexer;
use nea::uri::{choose_target, target, TargetError};

#[test]
fn levels_are_set_by_name() {
    assert_eq!(init(None), Level::Info);
    assert_eq!(init(Some("ERROR")), Level::Error);
    assert_eq!(init(Some("Warn")), Level::Warn);
    assert_eq!(init(Some("info")), Level::Info);
    assert_eq!(init(Some("debug")), Level::Debug);
    assert_eq!(init(Some("trace")), Level::Trace);
    assert_eq!(init(Some("verbose")), Level::Info);
    assert!(is_enabled(Level::Info, Level::Warn));
    assert!(is_enabled(Level::Info, Level::Info));
    assert!(!is_enabled(Level::Info, Level::Debug));
    assert_eq!(Level::Trace.as_number(), 4);
}

#[test]
fn log_lines_carry_the_time() {
    // 2023-09-19T18:10:27Z
    let line = format_log(
        Level::Info,
        Level::Info,
        1695147027,
        "runtime::server",
        "main spawned future for connection 0",
    );
    assert_eq!(
        line.unwrap(),
        "[2023-09-19T18:10:27Z \x1b[32mINFO \x1b[0m runtime::server] main spawned future for connection 0"
    );
    let line = format_log(Level::Trace, Level::Error, 0, "m", "x");
    assert_eq!(line.unwrap(), "[1970-01-01T00:00:00Z \x1b[31mERROR\x1b[0m m] x");
    let line = format_log(Level::Trace, Level::Warn, 951782399, "m", "x");
    assert_eq!(line.unwrap(), "[2000-02-28T23:59:59Z \x1b[33mWARN \x1b[0m m] x");
    let line = format_log(Level::Trace, Level::Debug, 951782400, "m", "x");
    assert_eq!(line.unwrap(), "[2000-02-29T00:00:00Z \x1b[34mDEBUG\x1b[0m m] x");
    let line = format_log(Level::Trace, Level::Trace, -1, "m", "x");
    assert_eq!(line.unwrap(), "[1969-12-31T23:59:59Z \x1b[36mTRACE\x1b[0m m] x");
    assert_eq!(format_log(Level::Warn, Level::Info, 0, "m", "x"), None);
}

#[test]
fn the_calendar_has_ends() {
    assert!(has_date(0));
    assert!(has_date(8210266876799));
    assert!(!has_date(8210266876800));
    assert!(has_date(-8334601228800));
    assert!(!has_date(-8334601228801));
    assert!(!has_date(i64::MAX));
    assert!(!has_date(i64::MIN));
}

#[test]
fn years_before_the_common_era_are_negative() {
    let time = DateTime {
        year: -44,
        month: 3,
        day: 15,
        hour: 12,
        minute: 0,
        second: 5,
    };
    assert_eq!(
        format_line(time, Level::Info, "m", "x"),
        "[-44-03-15T12:00:05Z \x1b[32mINFO \x1b[0m m] x"
    );
}

#[test]
fn targets_have_a_host_and_a_port() {
    assert_eq!(
        target("http://0.0.0.0:8000/build.rs"),
        Ok(("0.0.0.0".to_string(), 8000))
    );
    assert_eq!(
        target("https://github.com/hyperium/hyper/blob/master/examples/client.rs"),
        Ok(("github.com".to_string(), 80))
    );
    assert_eq!(
        target("http://docs.rs/h2/latest/h2/"),
        Ok(("docs.rs".to_string(), 80))
    );
    assert_eq!(target("/hello/world"), Err(TargetError::NoHost));
    assert_eq!(target("http://"), Err(TargetError::InvalidUri));
    assert_eq!(target(""), Err(TargetError::InvalidUri));
    assert_eq!(choose_target(None), Err(TargetError::InvalidUri));
    assert_eq!(choose_target(Some((None, Some(1)))), Err(TargetError::NoHost));
    assert_eq!(
        choose_target(Some((Some("h".to_string()), None))),
        Ok(("h".to_string(), 80))
    );
}

#[test]
fn the_default_configuration_is_sound() {
    let config = Config::default();
    assert_eq!(config.bucket_count, 64);
    assert_eq!(config.io_resources, IoResources::default());
    assert_eq!(config.address(), "127.0.0.1:8080");
    assert!(config.is_valid());
}

#[test]
fn configurations_can_be_too_large() {
    let mut config = Config::default();
    config.bucket_count = u32::MAX as usize - 1;
    assert!(config.is_valid());
    config.bucket_count = u32::MAX as usize;
    assert!(!config.is_valid());
    config.bucket_count = 64;
    config.io_resources.tcp_streams = 0;
    assert!(!config.is_valid());
    config.io_resources.tcp_streams = usize::MAX;
    assert!(!config.is_valid());
    config.io_resources.tcp_streams = 1;
    config.io_resources.http_connections = 0x400_0000;
    assert!(!config.is_valid());
}

#[test]
fn the_nearest_configuration_file_counts() {
    assert!(matches!(load_step(Some("port = 1".to_string()), true), LoadStep::Found(content) if content == "port = 1"));
    assert!(matches!(load_step(None, true), LoadStep::LookAbove));
    assert!(matches!(load_step(None, false), LoadStep::UseDefault));
}

#[test]
fn clients_get_a_reply_whatever_they_send() {
    assert!(matches!(read_input(b"hi"), Input::Text(text) if text == "hi"));
    assert!(matches!(read_input(&[0xFF]), Input::Refused(bytes) if bytes == b"internal server error"));
    assert_eq!(reply(Some("fine")), b"fine".to_vec());
    assert_eq!(reply(None), b"a request handler hit a panic".to_vec());
    assert_eq!(roc_main("you".to_string()), "Hello, you");
}

#[test]
fn a_served_client_frees_its_bucket() {
    let mut memory = ServerAlloc::new(0x10_0000);
    memory.initialize_buckets(0x100_0000, 2, 64);
    let mut places = Indexer::new();
    places.initialize(2);
    assert_eq!(claim_bucket(&mut places, 4), Some(0));
    assert_eq!(claim_bucket(&mut places, 5), Some(1));
    assert_eq!(claim_bucket(&mut places, 6), None);
    let whole = Layout::from_size_align(64, 1).unwrap();
    memory.try_allocate_in_bucket(whole, 0).unwrap();
    memory.try_allocate_in_bucket(whole, 1).unwrap();

    assert_eq!(
        after_stream(&mut memory, &mut places, 0, StreamOutcome::ShutDown),
        WorkerStep::NextStream
    );
    assert_eq!(memory.try_allocate_in_bucket(whole, 0), Some(0x100_0000));
    assert_eq!(claim_bucket(&mut places, 7), Some(0));

    assert_eq!(
        after_stream(&mut memory, &mut places, 1, StreamOutcome::Failed),
        WorkerStep::Stop
    );
    assert_eq!(memory.try_allocate_in_bucket(whole, 1), None);
    assert_eq!(claim_bucket(&mut places, 8), None);
}

#[test]
fn benchmarks_find_their_programs() {
    for (name, path) in [
        ("go", "benchmarks/go/csv"),
        ("roc-nea", "benchmarks/roc-nea/csv"),
        ("rust-nea", "benchmarks/rust-nea/target/release/csv"),
        ("rust-tokio", "benchmarks/rust-tokio/target/release/csv"),
    ] {
        let implementation = Implementation::from_name(name).unwrap();
        assert_eq!(implementation.as_name(), name);
        assert_eq!(implementation.path("csv"), path);
        assert_eq!(implementation.result_path("csv"), format!("benchmarks/{name}-csv.json"));
    }
    assert_eq!(Implementation::from_name("c"), None);
    assert_eq!(request_file("csv"), "benchmarks/csv.txt");
    assert_eq!(
        siege_arguments("csv"),
        vec!["-j", "-c", "4", "-r", "10000", "-i", "-f", "benchmarks/csv.txt"]
    );
    assert!(siege_succeeded(Some(0)));
    assert!(!siege_succeeded(Some(1)));
    assert!(!siege_succeeded(None));
}
