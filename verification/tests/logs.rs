use r2::ctx::R2;
use r2::logs::{DumpResult, LogApis, OnFailure, ShowNext};

fn apis(nthreads: usize) -> LogApis {
    LogApis::new(&R2::new("cnt", "log", 32, 1000, nthreads))
}

fn dump(thread: usize, name: &str) -> ShowNext {
    ShowNext::Dump { thread, name: name.to_string() }
}

#[test]
fn every_thread_gets_its_own_file() {
    let apis = apis(2);
    assert_eq!(apis.handle_show("x", &vec![]), dump(0, "x:0"));
    assert_eq!(apis.handle_show("x", &vec![DumpResult::Done]), dump(1, "x:1"));
    assert_eq!(apis.handle_show("x", &vec![DumpResult::Done, DumpResult::Done]), ShowNext::Done);
}

#[test]
fn a_log_that_cannot_be_written_ends_the_call() {
    let apis = apis(2);
    let results = vec![DumpResult::Done, DumpResult::WriteFailed("disk full".to_string())];
    assert_eq!(
        apis.handle_show("x", &results),
        ShowNext::Failed("couldn't write log x:1: disk full".to_string())
    );
}

#[test]
fn the_first_failure_stops_the_dump() {
    let apis = apis(3);
    let results = vec![DumpResult::WriteFailed("broken pipe".to_string())];
    assert_eq!(
        apis.handle_show("/tmp/logs", &results),
        ShowNext::Failed("couldn't write log /tmp/logs:0: broken pipe".to_string())
    );
    let results = vec![
        DumpResult::Done,
        DumpResult::CreateFailed("permission denied".to_string()),
        DumpResult::WriteFailed("later".to_string()),
    ];
    assert_eq!(
        apis.handle_show("/tmp/logs", &results),
        ShowNext::Failed("couldn't create /tmp/logs: permission denied".to_string())
    );
}

#[test]
fn results_beyond_the_threads_are_not_looked_at() {
    let apis = apis(1);
    let results = vec![DumpResult::Done, DumpResult::WriteFailed("no such thread".to_string())];
    assert_eq!(apis.handle_show("x", &results), ShowNext::Done);
    assert_eq!(super_apis().handle_show("x", &vec![]), ShowNext::Done);
}

fn super_apis() -> LogApis {
    apis(0)
}

fn patient(nthreads: usize) -> LogApis {
    LogApis::with(&R2::new("cnt", "log", 32, 1000, nthreads), OnFailure::GoOn)
}

#[test]
fn a_dump_that_goes_on_gives_every_thread_its_turn() {
    let apis = patient(3);
    let mut results = vec![DumpResult::WriteFailed("a".to_string())];
    assert_eq!(apis.handle_show("x", &results), dump(1, "x:1"));
    results.push(DumpResult::Done);
    assert_eq!(apis.handle_show("x", &results), dump(2, "x:2"));
    results.push(DumpResult::CreateFailed("b".to_string()));
    assert_eq!(
        apis.handle_show("x", &results),
        ShowNext::Failed("couldn't write log x:0: a; couldn't create x: b".to_string())
    );
}

#[test]
fn a_dump_that_goes_on_reports_one_failure_alone() {
    let apis = patient(2);
    let results = vec![DumpResult::Done, DumpResult::WriteFailed("full".to_string())];
    assert_eq!(
        apis.handle_show("x", &results),
        ShowNext::Failed("couldn't write log x:1: full".to_string())
    );
    let results = vec![DumpResult::Done, DumpResult::Done];
    assert_eq!(apis.handle_show("x", &results), ShowNext::Done);
    assert_eq!(apis.handle_show("x", &vec![]), dump(0, "x:0"));
    assert_eq!(patient(0).handle_show("x", &vec![]), ShowNext::Done);
}

#[test]
fn a_dump_that_stops_is_what_new_gives() {
    let r2 = R2::new("cnt", "log", 32, 1000, 2);
    let results = vec![DumpResult::WriteFailed("a".to_string())];
    let stop = ShowNext::Failed("couldn't write log x:0: a".to_string());
    assert_eq!(LogApis::new(&r2).handle_show("x", &results), stop);
    assert_eq!(LogApis::with(&r2, OnFailure::Stop).handle_show("x", &results), stop);
}

#[test]
fn failure_messages() {
    assert_eq!(LogApis::failure("x", 1, &DumpResult::Done), "");
    assert_eq!(
        LogApis::failure("x", 1, &DumpResult::CreateFailed("why".to_string())),
        "couldn't create x: why"
    );
    assert_eq!(
        LogApis::failure("x", 10, &DumpResult::WriteFailed("why".to_string())),
        "couldn't write log x:10: why"
    );
}
