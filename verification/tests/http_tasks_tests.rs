use rust_performance_test::basic_sort;
use rust_performance_test::closure_operation;
use rust_performance_test::drain_queue;
use rust_performance_test::iterators;
use rust_performance_test::memory_allocation_and_management;
use rust_performance_test::parse_http_request;
use rust_performance_test::parse_http_request_optimized;
use rust_performance_test::process_task;
use rust_performance_test::square_all;
use rust_performance_test::WorkQueue;
use rust_performance_test::WorkerAction;

fn header_pairs(raw: &[(&str, &str)]) -> Vec<(String, String)> {
    raw.iter().map(|(k, v)| (k.to_string(), v.to_string())).collect()
}

#[test]
fn http_request_basic() {
    let raw = "POST /submit HTTP/1.1\nHost: example.com\nContent-Length: 13\nContent-Type: text/plain\n\nHello, world!";
    let r = parse_http_request(raw);
    assert_eq!(r.method, "POST".to_string());
    assert_eq!(r.path, "/submit".to_string());
    assert_eq!(
        r.headers,
        header_pairs(&[
            ("Host", "example.com"),
            ("Content-Length", "13"),
            ("Content-Type", "text/plain"),
        ])
    );
    assert_eq!(r.body, "Hello, world!".to_string());
}

#[test]
fn http_request_optimized_basic() {
    let raw = "POST /submit HTTP/1.1\nHost: example.com\nContent-Length: 13\nContent-Type: text/plain\n\nHello, world!";
    let r = parse_http_request_optimized(raw);
    assert_eq!(r.method, "POST".to_string());
    assert_eq!(r.path, "/submit".to_string());
    assert_eq!(
        r.headers,
        header_pairs(&[
            ("Host", "example.com"),
            ("Content-Length", "13"),
            ("Content-Type", "text/plain"),
        ])
    );
    assert_eq!(r.body, "Hello, world!".to_string());
}

#[test]
fn http_request_crlf_lines() {
    let raw = "GET /x HTTP/1.1\r\nA: b\r\n\r\nBody";
    let r = parse_http_request(raw);
    assert_eq!(r.method, "GET".to_string());
    assert_eq!(r.path, "/x".to_string());
    assert_eq!(r.headers, header_pairs(&[("A", "b")]));
    assert_eq!(r.body, "Body".to_string());
}

#[test]
fn http_request_duplicate_header_last_wins() {
    let raw = "GET / HTTP/1.1\nA: 1\nA: 2\n\n";
    let r = parse_http_request(raw);
    assert_eq!(r.headers, header_pairs(&[("A", "2")]));
    assert_eq!(r.body, "".to_string());
}

#[test]
fn http_request_body_lines_rejoined() {
    let raw = "GET / HTTP/1.1\nA: b\n\nl1\r\nl2";
    let r = parse_http_request(raw);
    assert_eq!(r.body, "l1\nl2".to_string());
}

#[test]
fn http_request_optimized_keeps_raw_body() {
    let raw = "GET / HTTP/1.1\nA: b\n\nl1\r\nl2";
    let r = parse_http_request_optimized(raw);
    assert_eq!(r.body, "l1\r\nl2".to_string());
}

#[test]
fn http_request_without_path() {
    let r = parse_http_request("GET\n\n");
    assert_eq!(r.method, "GET".to_string());
    assert_eq!(r.path, "".to_string());
    assert_eq!(r.headers, Vec::<(String, String)>::new());
}

#[test]
fn http_request_header_without_colon_is_skipped() {
    let raw = "GET / HTTP/1.1\njunk-line\nA: b\n\nx";
    let r = parse_http_request(raw);
    assert_eq!(r.headers, header_pairs(&[("A", "b")]));
    assert_eq!(r.body, "x".to_string());
}

#[test]
fn process_task_squares() {
    assert_eq!(process_task(0), 0);
    assert_eq!(process_task(7), 49);
    assert_eq!(process_task(250_000), 62_500_000_000);
}

#[test]
fn square_all_matches_inputs() {
    let tasks: Vec<usize> = vec![0, 1, 2, 3, 9, 100];
    let results = square_all(&tasks);
    assert_eq!(results, vec![0, 1, 4, 9, 81, 10_000]);
}

#[test]
fn worker_pool_scenario_all_tasks_once() {
    let n: usize = 100;
    let mut queue = WorkQueue::new();
    for i in 0..n {
        queue.push(i);
    }
    queue.close();
    let mut results = Vec::new();
    loop {
        match queue.worker_step() {
            WorkerAction::Process(t) => results.push(process_task(t)),
            WorkerAction::Exit => break,
            WorkerAction::Wait => panic!("a closed queue never asks a worker to wait"),
        }
    }
    assert_eq!(results.len(), n);
    for i in 0..n {
        assert_eq!(results[i], i * i);
    }
}

#[test]
fn drain_queue_yields_every_square_once() {
    let n: usize = 50;
    let mut queue = WorkQueue::new();
    for i in 0..n {
        queue.push(i);
    }
    queue.close();
    let results = drain_queue(&mut queue);
    assert_eq!(results.len(), n);
    for i in 0..n {
        assert_eq!(results[i], i * i);
    }
    assert_eq!(queue.worker_step(), WorkerAction::Exit);
}

#[test]
fn worker_step_waits_then_exits() {
    let mut queue = WorkQueue::new();
    assert_eq!(queue.worker_step(), WorkerAction::Wait);
    queue.push(3);
    queue.close();
    assert_eq!(queue.worker_step(), WorkerAction::Process(3));
    assert_eq!(queue.worker_step(), WorkerAction::Exit);
}

#[test]
fn micro_routines_run() {
    basic_sort(16);
    basic_sort(0);
    closure_operation(8);
    memory_allocation_and_management(8);
    iterators(8);
}
