use seal::jobs::{parse_usize, print_job, JobTable};
use seal::models::{Command, Job, JobStatus};

fn cmd(name: &str) -> Command {
    Command { program: name.to_string(), args: vec![name.to_string()], redirects: vec![] }
}

fn job(id: usize, pgid: i32, name: &str) -> Job {
    Job { id, pgid, status: JobStatus::Running, command: cmd(name), childrens: vec![pgid] }
}

#[test]
fn job_line_columns() {
    assert_eq!(print_job(&job(1, 4242, "sleep"), 1), "[ 1]+   4242 RUNNING    sleep");
    let mut j = job(12, -5, "vim");
    j.status = JobStatus::Suspended;
    assert_eq!(print_job(&j, 3), "[12]      -5 SUSPENDED  vim");
    j.status = JobStatus::Done;
    assert_eq!(print_job(&j, 3), "[12]      -5 DONE       vim");
    assert_eq!(print_job(&job(100, 1234567, "x"), 0), "[100]  1234567 RUNNING    x");
}

#[test]
fn parsing_job_numbers() {
    assert_eq!(parse_usize("42"), Some(42));
    assert_eq!(parse_usize("+7"), Some(7));
    assert_eq!(parse_usize("007"), Some(7));
    assert_eq!(parse_usize(""), None);
    assert_eq!(parse_usize("+"), None);
    assert_eq!(parse_usize("-1"), None);
    assert_eq!(parse_usize("4a"), None);
    assert_eq!(parse_usize("99999999999999999999999"), None);
    assert_eq!(parse_usize(&usize::MAX.to_string()), Some(usize::MAX));
}

#[test]
fn refresh_lists_and_drops_finished_jobs() {
    let mut t = JobTable::new();
    t.jobs.push(job(1, 10, "a"));
    t.jobs.push(job(2, 20, "b"));
    t.recent_id = 2;
    let lines = t.refresh(&vec![true, false]);
    assert_eq!(lines, vec!["[ 1]      10 DONE       a", "[ 2]+     20 RUNNING    b"]);
    assert_eq!(t.jobs.len(), 1);
    assert_eq!(t.jobs[0].id, 2);
    assert!(!t.is_empty());
    let lines = t.refresh(&vec![true]);
    assert_eq!(lines.len(), 1);
    assert!(t.is_empty());
    assert!(t.refresh(&vec![]).is_empty());
}

#[test]
fn fg_picks_by_id_or_last() {
    let mut t = JobTable::new();
    t.jobs.push(job(1, 10, "a"));
    t.jobs.push(job(2, 20, "b"));
    t.jobs.push(job(3, 30, "c"));
    let args = vec!["fg".to_string(), "2".to_string()];
    let j = t.take_for_fg(&args).unwrap();
    assert_eq!(j.id, 2);
    assert_eq!(t.jobs.len(), 2);
    let bad = vec!["fg".to_string(), "x".to_string()];
    assert!(t.take_for_fg(&bad).is_none());
    let none = vec!["fg".to_string(), "9".to_string()];
    assert!(t.take_for_fg(&none).is_none());
    let last = t.take_for_fg(&vec!["fg".to_string()]).unwrap();
    assert_eq!(last.id, 3);
    t.update_recent();
    assert_eq!(t.recent_id, 1);
}

#[test]
fn stopped_jobs_are_recorded() {
    let mut t = JobTable::new();
    let line = t.record_stopped(job(4, 44, "top"));
    assert_eq!(line, "[ 4]+     44 SUSPENDED  top");
    assert_eq!(t.recent_id, 4);
    assert_eq!(t.jobs[0].status, JobStatus::Suspended);
}

#[test]
fn new_jobs_are_numbered_after_the_table() {
    let mut t = JobTable::new();
    t.jobs.push(job(1, 10, "a"));
    let j = t.new_job(cmd("sleep"), Some(77), vec![77, 78]).unwrap();
    assert_eq!(j.id, 2);
    assert_eq!(j.pgid, 77);
    assert_eq!(j.status, JobStatus::Running);
    assert_eq!(j.childrens, vec![77, 78]);
    assert!(t.new_job(cmd("echo"), None, vec![]).is_none());
}

#[test]
fn refresh_with_nothing_new_keeps_the_table() {
    let mut t = JobTable::new();
    t.jobs.push(job(1, 10, "a"));
    t.jobs.push(job(2, 20, "b"));
    t.jobs.push(job(3, 30, "c"));
    t.refresh(&vec![false, true, false]);
    let ids: Vec<usize> = t.jobs.iter().map(|j| j.id).collect();
    assert_eq!(ids, vec![1, 3]);
    assert!(t.jobs.iter().all(|j| j.status != JobStatus::Done));
    t.refresh(&vec![false, false]);
    let again: Vec<usize> = t.jobs.iter().map(|j| j.id).collect();
    assert_eq!(again, ids);
}

#[test]
fn fg_takes_back_the_background_job() {
    let mut t = JobTable::new();
    t.jobs.push(job(1, 10, "a"));
    t.jobs.push(job(2, 20, "b"));
    let before: Vec<usize> = t.jobs.iter().map(|j| j.id).collect();
    let line = t.add_background(job(3, 30, "c"));
    assert_eq!(line, "[ 3]+     30 RUNNING    c");
    let back = t.take_for_fg(&vec!["fg".to_string(), "3".to_string()]).unwrap();
    assert_eq!(back.id, 3);
    assert_eq!(back.pgid, 30);
    let after: Vec<usize> = t.jobs.iter().map(|j| j.id).collect();
    assert_eq!(after, before);
    t.add_background(job(4, 40, "d"));
    let last = t.take_for_fg(&vec!["fg".to_string()]).unwrap();
    assert_eq!(last.id, 4);
    let after: Vec<usize> = t.jobs.iter().map(|j| j.id).collect();
    assert_eq!(after, before);
}
