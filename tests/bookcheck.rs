use bookcheck::classify::{is_success, outcome_code, FAILED};
use bookcheck::config::{output_file_name, parse_concurrency, ConfigError, DEFAULT_CONCURRENCY};
use bookcheck::dispatch::Dispatcher;
use bookcheck::plan::{plan_probes, surviving_positions, ProbeTask};
use bookcheck::target::probe_target;

fn field(s: &str) -> Option<String> {
    Some(s.to_string())
}

/// Runs a batch, settling the probes in flight in the order `pick` chooses,
/// with the answer `answers[position]`; returns the outcomes and the largest
/// number of probes seen in flight.
fn run_batch(
    answers: &[Option<u16>],
    bound: usize,
    pick: fn(&[usize]) -> usize,
) -> (Vec<u16>, usize) {
    let mut d = Dispatcher::new(answers.len(), bound);
    let mut running: Vec<usize> = Vec::new();
    let mut peak = 0;
    loop {
        while let Some(index) = d.start_next() {
            running.push(index);
        }
        peak = peak.max(d.running());
        assert_eq!(d.running(), running.len());
        if running.is_empty() {
            break;
        }
        let k = pick(&running);
        let index = running.remove(k);
        assert!(d.is_in_flight(index));
        d.complete(index, answers[index]);
        assert!(!d.is_in_flight(index));
    }
    assert!(d.is_finished());
    (d.outcomes(), peak)
}

fn first(_: &[usize]) -> usize {
    0
}

fn last(r: &[usize]) -> usize {
    r.len() - 1
}

#[test]
fn success_range_boundaries() {
    assert!(is_success(200));
    assert!(is_success(299));
    assert!(is_success(204));
    assert!(!is_success(300));
    assert!(!is_success(199));
    assert!(!is_success(404));
    assert!(!is_success(FAILED));
}

#[test]
fn outcome_of_answer_and_of_failure() {
    assert_eq!(outcome_code(None), 0);
    assert_eq!(outcome_code(Some(404)), 404);
    assert_eq!(outcome_code(Some(200)), 200);
    assert_eq!(outcome_code(Some(599)), 599);
    assert_eq!(outcome_code(Some(100)), 100);
}

#[test]
fn outcome_outside_status_range_is_failure() {
    assert_eq!(outcome_code(Some(700)), FAILED);
    assert_eq!(outcome_code(Some(600)), FAILED);
    assert_eq!(outcome_code(Some(999)), FAILED);
    assert_eq!(outcome_code(Some(99)), FAILED);
    assert_eq!(outcome_code(Some(0)), FAILED);
    let (outcomes, _) = run_batch(&[Some(700), Some(250)], 2, last);
    assert_eq!(outcomes, vec![0, 250]);
}

#[test]
fn concurrency_default_and_values() {
    assert_eq!(parse_concurrency(None), Ok(15));
    assert_eq!(DEFAULT_CONCURRENCY, 15);
    assert_eq!(parse_concurrency(Some("1")), Ok(1));
    assert_eq!(parse_concurrency(Some("42")), Ok(42));
    assert_eq!(parse_concurrency(Some("+7")), Ok(7));
    assert_eq!(parse_concurrency(Some("007")), Ok(7));
    assert_eq!(
        parse_concurrency(Some("18446744073709551615")),
        Ok(18446744073709551615)
    );
}

#[test]
fn concurrency_zero_is_refused() {
    assert_eq!(parse_concurrency(Some("0")), Err(ConfigError::NotPositive));
    assert_eq!(parse_concurrency(Some("+0")), Err(ConfigError::NotPositive));
}

#[test]
fn concurrency_not_a_number_is_refused() {
    assert_eq!(parse_concurrency(Some("abc")), Err(ConfigError::NotANumber));
    assert_eq!(parse_concurrency(Some("")), Err(ConfigError::NotANumber));
    assert_eq!(parse_concurrency(Some("+")), Err(ConfigError::NotANumber));
    assert_eq!(parse_concurrency(Some("-1")), Err(ConfigError::NotANumber));
    assert_eq!(parse_concurrency(Some("1 ")), Err(ConfigError::NotANumber));
    assert_eq!(parse_concurrency(Some("12a")), Err(ConfigError::NotANumber));
    assert_eq!(
        parse_concurrency(Some("18446744073709551616")),
        Err(ConfigError::NotANumber)
    );
    assert_eq!(
        parse_concurrency(Some("99999999999999999999")),
        Err(ConfigError::NotANumber)
    );
}

#[test]
fn output_name_has_prefix() {
    assert_eq!(output_file_name("shareBookSource.json"), "newshareBookSource.json");
    assert_eq!(output_file_name(""), "new");
}

#[test]
fn target_strips_quotes_and_spaces() {
    assert_eq!(
        probe_target("\"http://a.example/x\""),
        Some(b"http://a.example/x".to_vec())
    );
    assert_eq!(
        probe_target(" https://b.example/ y "),
        Some(b"https://b.example/y".to_vec())
    );
    assert_eq!(probe_target("\"ftp://c.example\""), None);
    assert_eq!(probe_target("\"\""), None);
    assert_eq!(probe_target("htt"), None);
    assert_eq!(probe_target("null"), None);
    assert_eq!(probe_target("h t t p"), Some(b"http".to_vec()));
}

#[test]
fn plan_keeps_entry_positions() {
    let fields = vec![
        field("\"http://a.example\""),
        None,
        field("\"ftp://b.example\""),
        field("\"https://c.example\""),
    ];
    let tasks = plan_probes(&fields);
    assert_eq!(tasks.len(), 2);
    assert_eq!(tasks[0].position, 0);
    assert_eq!(tasks[0].url, b"http://a.example".to_vec());
    assert_eq!(tasks[1].position, 3);
    assert_eq!(tasks[1].url, b"https://c.example".to_vec());
}

#[test]
fn one_outcome_per_eligible_entry() {
    let fields = vec![
        field("\"http://a.example\""),
        field("\"not a url\""),
        None,
        field("\"https://d.example\""),
        field("\"http://e.example\""),
    ];
    let tasks = plan_probes(&fields);
    assert_eq!(tasks.len(), 3);
    let answers: Vec<Option<u16>> = tasks.iter().map(|_| None).collect();
    let (outcomes, _) = run_batch(&answers, 2, first);
    assert_eq!(outcomes.len(), 3);
    assert!(outcomes.iter().all(|&c| c == FAILED));
}

#[test]
fn filter_keeps_only_live_entry() {
    let fields = vec![
        field("\"http://a.example\""),
        field("\"http://b.example\""),
        field("\"http://c.example\""),
    ];
    let tasks = plan_probes(&fields);
    let answers = vec![Some(200), Some(404), None];
    let (outcomes, _) = run_batch(&answers, 3, last);
    assert_eq!(outcomes, vec![200, 404, 0]);
    assert_eq!(surviving_positions(&tasks, &outcomes), vec![0]);
}

#[test]
fn filter_pairs_with_entry_positions() {
    let fields = vec![
        None,
        field("\"http://a.example\""),
        field("\"http://b.example\""),
        field("\"nothing\""),
        field("\"http://c.example\""),
    ];
    let tasks = plan_probes(&fields);
    let outcomes = vec![0, 299, 200];
    assert_eq!(surviving_positions(&tasks, &outcomes), vec![2, 4]);
}

#[test]
fn filter_of_nothing() {
    let tasks: Vec<ProbeTask> = Vec::new();
    assert_eq!(surviving_positions(&tasks, &Vec::new()), Vec::<usize>::new());
}

#[test]
fn bound_of_one_never_overlaps() {
    let answers = vec![Some(200), Some(500), None, Some(301)];
    let (outcomes, peak) = run_batch(&answers, 1, first);
    assert_eq!(peak, 1);
    assert_eq!(outcomes, vec![200, 500, 0, 301]);
}

#[test]
fn bound_is_respected_step_by_step() {
    let mut d = Dispatcher::new(5, 2);
    assert_eq!(d.start_next(), Some(0));
    assert_eq!(d.start_next(), Some(1));
    assert_eq!(d.start_next(), None);
    assert_eq!(d.running(), 2);
    d.complete(1, Some(200));
    assert_eq!(d.running(), 1);
    assert_eq!(d.start_next(), Some(2));
    assert_eq!(d.start_next(), None);
    assert!(!d.is_finished());
}

#[test]
fn large_bound_starts_everything_at_once() {
    let mut d = Dispatcher::new(3, 10);
    assert_eq!(d.start_next(), Some(0));
    assert_eq!(d.start_next(), Some(1));
    assert_eq!(d.start_next(), Some(2));
    assert_eq!(d.start_next(), None);
    assert_eq!(d.running(), 3);
}

#[test]
fn empty_batch_is_finished_at_once() {
    let mut d = Dispatcher::new(0, 3);
    assert!(d.is_finished());
    assert_eq!(d.start_next(), None);
    assert_eq!(d.outcomes(), Vec::<u16>::new());
}

#[test]
fn order_kept_whatever_finishes_first() {
    let answers = vec![Some(200), None, Some(404), Some(250), Some(503)];
    let (in_order, peak_a) = run_batch(&answers, 2, first);
    let (reversed, peak_b) = run_batch(&answers, 2, last);
    assert_eq!(in_order, vec![200, 0, 404, 250, 503]);
    assert_eq!(reversed, in_order);
    assert!(peak_a <= 2 && peak_b <= 2);
}

#[test]
fn rerun_gives_same_classification() {
    let answers = vec![Some(200), None, Some(299), Some(300)];
    let (a, _) = run_batch(&answers, 3, first);
    let (b, _) = run_batch(&answers, 1, last);
    assert_eq!(a, b);
    let tasks = plan_probes(&vec![
        field("http://a"),
        field("http://b"),
        field("http://c"),
        field("http://d"),
    ]);
    assert_eq!(surviving_positions(&tasks, &a), vec![0, 2]);
    assert_eq!(surviving_positions(&tasks, &b), vec![0, 2]);
}
