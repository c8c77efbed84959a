use viewers::progress::{inc_status, ProcessingStatus};

fn idle() -> ProcessingStatus {
    ProcessingStatus { running: false, total: 0, processed: 0 }
}

#[test]
fn batch_counts_up_and_resets_when_complete() {
    let mut status = ProcessingStatus::idle();
    status.start(3);
    assert_eq!(status, ProcessingStatus { running: true, total: 3, processed: 0 });
    inc_status(&mut status);
    assert_eq!(status, ProcessingStatus { running: true, total: 3, processed: 1 });
    assert!(status.processed <= status.total);
    inc_status(&mut status);
    assert_eq!(status, ProcessingStatus { running: true, total: 3, processed: 2 });
    inc_status(&mut status);
    assert_eq!(status, idle());
}

#[test]
fn empty_batch_leaves_counter_untouched() {
    let mut status = ProcessingStatus { running: true, total: 4, processed: 1 };
    status.start(0);
    assert_eq!(status, ProcessingStatus { running: true, total: 4, processed: 1 });
}

#[test]
fn single_job_batch_resets_on_first_completion() {
    let mut status = ProcessingStatus::idle();
    status.start(1);
    inc_status(&mut status);
    assert_eq!(status, idle());
}

#[test]
fn completion_while_idle_is_not_counted() {
    let mut status = ProcessingStatus::idle();
    inc_status(&mut status);
    assert_eq!(status, idle());
}
