use pomodoro::console::{Script, Transcript};
use pomodoro::error::SessionError;
use pomodoro::record::{format_record, MemoryStore, RecordStore};
use pomodoro::session::Pomodoro;
use pomodoro::timer::VirtualTimer;

fn fresh() -> Pomodoro<VirtualTimer, MemoryStore> {
    Pomodoro::new(VirtualTimer::new(), MemoryStore::new())
}

fn fields_of(bytes: &[u8]) -> Vec<String> {
    let mut reader = csv::ReaderBuilder::new().has_headers(false).from_reader(bytes);
    let mut records = reader.records();
    let record = records.next().unwrap().unwrap();
    assert!(records.next().is_none());
    record.iter().map(|field| field.to_string()).collect()
}

#[test]
fn record_of_plain_fields_is_joined_by_commas() {
    let record = format_record("Test task", 20, "2024-05-01 10:00:00 +02:00").unwrap();
    assert_eq!(record, b"Test task,20,2024-05-01 10:00:00 +02:00\n".to_vec());
}

#[test]
fn record_has_minutes_in_decimal() {
    assert_eq!(format_record("a", 0, "s").unwrap(), b"a,0,s\n".to_vec());
    assert_eq!(format_record("a", 7, "s").unwrap(), b"a,7,s\n".to_vec());
    assert_eq!(format_record("a", 1205, "s").unwrap(), b"a,1205,s\n".to_vec());
    assert_eq!(
        format_record("a", u64::MAX, "s").unwrap(),
        b"a,18446744073709551615,s\n".to_vec()
    );
}

#[test]
fn record_quotes_fields_with_special_bytes() {
    assert_eq!(format_record("a,b", 1, "s").unwrap(), b"\"a,b\",1,s\n".to_vec());
    assert_eq!(format_record("say \"hi\"", 1, "s").unwrap(), b"\"say \"\"hi\"\"\",1,s\n".to_vec());
    assert_eq!(format_record("two\nlines", 1, "s").unwrap(), b"\"two\nlines\",1,s\n".to_vec());
    assert_eq!(format_record("cr\rhere", 1, "s").unwrap(), b"\"cr\rhere\",1,s\n".to_vec());
    assert_eq!(format_record("a", 1, "x,\"y\"").unwrap(), b"a,1,\"x,\"\"y\"\"\"\n".to_vec());
    assert_eq!(format_record("\"", 1, "").unwrap(), b"\"\"\"\",1,\n".to_vec());
}

#[test]
fn record_leaves_other_bytes_bare() {
    assert_eq!(format_record("", 1, "").unwrap(), b",1,\n".to_vec());
    assert_eq!(format_record(" padded ", 1, "s").unwrap(), b" padded ,1,s\n".to_vec());
    assert_eq!(format_record("#tag;tab\there", 1, "s").unwrap(), b"#tag;tab\there,1,s\n".to_vec());
    assert_eq!(
        format_record("caf\u{e9} \u{1F345}", 1, "s").unwrap(),
        "caf\u{e9} \u{1F345},1,s\n".as_bytes().to_vec()
    );
    let long = "x".repeat(20_000);
    let record = format_record(&long, 1, "s").unwrap();
    assert_eq!(record, format!("{},1,s\n", long).into_bytes());
    let long_quoted = format!("{}\"{}", "y".repeat(9_000), "z".repeat(9_000));
    let record = format_record(&long_quoted, 1, "s").unwrap();
    assert_eq!(
        record,
        format!("\"{}\"\"{}\",1,s\n", "y".repeat(9_000), "z".repeat(9_000)).into_bytes()
    );
}

#[test]
fn plain_task_is_read_back_as_the_first_field() {
    for task in ["Test task", "Design spec", "", "caf\u{e9}", "a b  c", "tab\there"] {
        let mut pomodoro = fresh();
        pomodoro.log_work_at(task, "2024-05-01 10:00:00").unwrap();
        let comma = pomodoro.store.bytes.iter().position(|&byte| byte == b',').unwrap();
        assert_eq!(&pomodoro.store.bytes[..comma], task.as_bytes());
        let fields = fields_of(&pomodoro.store.bytes);
        assert_eq!(fields, vec![task.to_string(), String::from("20"), String::from("2024-05-01 10:00:00")]);
    }
}

#[test]
fn any_task_is_read_back_by_a_reader() {
    for task in ["a,b", "say \"hi\"", "two\nlines", "\"", ",", "cr\rlf\n"] {
        let mut pomodoro = fresh();
        pomodoro.work_duration = 45;
        pomodoro.log_work_at(task, "now, or \"then\"").unwrap();
        let fields = fields_of(&pomodoro.store.bytes);
        assert_eq!(fields, vec![task.to_string(), String::from("45"), String::from("now, or \"then\"")]);
    }
}

#[test]
fn second_log_replaces_the_first() {
    let mut pomodoro = fresh();
    pomodoro.log_work_at("first task", "stamp one").unwrap();
    assert_eq!(pomodoro.store.bytes, b"first task,20,stamp one\n".to_vec());
    pomodoro.log_work_at("second task", "stamp two").unwrap();
    assert_eq!(pomodoro.store.bytes, b"second task,20,stamp two\n".to_vec());
    let content = String::from_utf8(pomodoro.store.bytes.clone()).unwrap();
    assert!(!content.contains("first task"));
    assert_eq!(fields_of(&pomodoro.store.bytes)[0], "second task");
}

#[test]
fn second_log_with_the_clock_replaces_the_first() {
    let mut pomodoro = fresh();
    pomodoro.log_work("first task").unwrap();
    pomodoro.log_work("second task").unwrap();
    let fields = fields_of(&pomodoro.store.bytes);
    assert_eq!(fields.len(), 3);
    assert_eq!(fields[0], "second task");
    assert_eq!(fields[1], "20");
    assert!(!fields[2].is_empty());
}

#[test]
fn log_stamp_is_a_local_date_and_time() {
    let mut pomodoro = fresh();
    pomodoro.log_work("Test task").unwrap();
    let fields = fields_of(&pomodoro.store.bytes);
    let stamp = &fields[2];
    let parsed = chrono::DateTime::parse_from_str(stamp, "%Y-%m-%d %H:%M:%S%.f %:z");
    assert!(parsed.is_ok());
}

#[test]
fn memory_store_keeps_the_last_write() {
    let mut store = MemoryStore::new();
    assert!(store.bytes.is_empty());
    store.overwrite(b"one\n").unwrap();
    store.overwrite(b"2\n").unwrap();
    assert_eq!(store.bytes, b"2\n".to_vec());
}

/// A store that cannot be written.
struct FullStore;

impl RecordStore for FullStore {
    fn overwrite(&mut self, _data: &[u8]) -> Result<(), SessionError> {
        Err(SessionError::Store(String::from("disk full")))
    }
}

#[test]
fn failed_log_ends_the_cycle_before_the_break() {
    let mut pomodoro = Pomodoro::new(VirtualTimer::new(), FullStore);
    pomodoro.work_duration = 1;
    let mut input = Script::new("start\nTest task\nquit\n");
    let mut output = Transcript::new();
    let done = pomodoro.run(&mut input, &mut output);
    assert_eq!(done, Err(SessionError::Store(String::from("disk full"))));
    assert!(output.text.ends_with("\nWork session completed!\n"));
    assert!(!output.text.contains("Time for a break!"));
    assert!(!output.text.contains("Break"));
    assert_eq!(pomodoro.timer.current.nanos, 60 * pomodoro::timer::NANOS_PER_SEC);
    assert_eq!(input.rest, "quit\n");
}

#[test]
fn failed_log_is_handed_up_by_log_work() {
    let mut pomodoro = Pomodoro::new(VirtualTimer::new(), FullStore);
    assert_eq!(
        pomodoro.log_work("Test task"),
        Err(SessionError::Store(String::from("disk full")))
    );
    assert_eq!(
        pomodoro.log_work_at("Test task", "stamp"),
        Err(SessionError::Store(String::from("disk full")))
    );
}
