use carli::jobs::{
    end_status, pipeline_wait_decision, StageEnd, StageProgress, WaitDecision, WaitEvent,
};
use carli::parse_pipeline;
use carli::session::{pipeline_text, stage_streams, StageStream};

#[test]
fn a_new_job_has_every_stage_running() {
    let progress = StageProgress::start(3);
    assert_eq!(progress.running, vec![true, true, true]);
    assert_eq!(progress.last_end, None);
    assert!(!progress.finished());
}

#[test]
fn pipeline_status_is_the_last_stage_status() {
    // `sh -c 'exit 23' | true` gives 0.
    let mut progress = StageProgress::start(2);
    assert!(!progress.stage_ended(0, StageEnd::Exited(23)));
    assert!(progress.stage_ended(1, StageEnd::Exited(0)));
    assert_eq!(progress.status(), 0);

    // `true | sh -c 'exit 7'` gives 7.
    let mut progress = StageProgress::start(2);
    assert!(!progress.stage_ended(0, StageEnd::Exited(0)));
    assert!(progress.stage_ended(1, StageEnd::Exited(7)));
    assert_eq!(progress.status(), 7);
}

#[test]
fn last_stage_status_stands_even_when_it_ends_first() {
    let mut progress = StageProgress::start(3);
    assert!(!progress.stage_ended(2, StageEnd::Exited(4)));
    assert!(!progress.stage_ended(0, StageEnd::Exited(9)));
    assert!(progress.stage_ended(1, StageEnd::Signaled(13)));
    assert_eq!(progress.last_end, Some(StageEnd::Exited(4)));
    assert_eq!(progress.status(), 4);
}

#[test]
fn a_signaled_last_stage_gives_128_plus_the_signal() {
    let mut progress = StageProgress::start(1);
    assert!(progress.stage_ended(0, StageEnd::Signaled(2)));
    assert_eq!(progress.status(), 130);
    assert_eq!(end_status(StageEnd::Signaled(15)), 143);
    assert_eq!(end_status(StageEnd::Exited(3)), 3);
}

#[test]
fn a_stage_that_cannot_start_still_counts() {
    let mut progress = StageProgress::start(2);
    assert!(!progress.stage_ended(1, StageEnd::Exited(127)));
    let decision = pipeline_wait_decision(&mut progress, Some(0), WaitEvent::Exited(0), false);
    assert_eq!(decision, WaitDecision::Finished(127));
}

#[test]
fn foreground_pipeline_waits_for_every_stage() {
    let mut progress = StageProgress::start(2);
    assert_eq!(
        pipeline_wait_decision(&mut progress, Some(1), WaitEvent::Exited(5), false),
        WaitDecision::Continue { hang_up: false }
    );
    assert_eq!(progress.running, vec![true, false]);
    assert_eq!(
        pipeline_wait_decision(&mut progress, Some(0), WaitEvent::Signaled(13), false),
        WaitDecision::Finished(5)
    );
}

#[test]
fn a_stop_suspends_the_whole_pipeline() {
    let mut progress = StageProgress::start(2);
    assert_eq!(
        pipeline_wait_decision(&mut progress, Some(0), WaitEvent::Stopped(20), false),
        WaitDecision::Suspended(148)
    );
    assert_eq!(progress.running, vec![true, true]);
}

#[test]
fn other_events_are_decided_as_for_one_process() {
    let mut progress = StageProgress::start(2);
    assert_eq!(
        pipeline_wait_decision(&mut progress, None, WaitEvent::Exited(1), false),
        WaitDecision::Continue { hang_up: false }
    );
    assert_eq!(
        pipeline_wait_decision(&mut progress, None, WaitEvent::Interrupted, true),
        WaitDecision::Continue { hang_up: true }
    );
    assert_eq!(
        pipeline_wait_decision(&mut progress, None, WaitEvent::Other, true),
        WaitDecision::Continue { hang_up: false }
    );
    assert_eq!(
        pipeline_wait_decision(&mut progress, None, WaitEvent::Failed, false),
        WaitDecision::Failed
    );
    assert_eq!(progress.running, vec![true, true]);
}

#[test]
fn a_pipeline_is_shown_as_one_job() {
    let commands = parse_pipeline("cat  access.log|grep ' 500 ' | wc -l > n", &[]).unwrap();
    assert_eq!(pipeline_text(&commands), "cat access.log | grep  500  | wc -l");
    let single = parse_pipeline("sleep 10", &[]).unwrap();
    assert_eq!(pipeline_text(&single), "sleep 10");
}

#[test]
fn explicit_redirections_take_the_place_of_pipe_ends() {
    assert_eq!(stage_streams(0, 2, false, false), (StageStream::Inherited, StageStream::Pipe));
    assert_eq!(stage_streams(1, 2, false, false), (StageStream::Pipe, StageStream::Inherited));
    assert_eq!(stage_streams(1, 3, false, false), (StageStream::Pipe, StageStream::Pipe));
    // `printf ignored | cat < saved-input.txt`
    assert_eq!(stage_streams(1, 2, true, false), (StageStream::Redirected, StageStream::Inherited));
    // `generate-data | sort > sorted.txt`
    assert_eq!(stage_streams(1, 2, false, true), (StageStream::Pipe, StageStream::Redirected));
    assert_eq!(stage_streams(0, 3, true, true), (StageStream::Redirected, StageStream::Redirected));
    assert_eq!(stage_streams(0, 1, false, false), (StageStream::Inherited, StageStream::Inherited));
}
