use ghee::intent::{Intent, IntentType, PolicyEvent, PolicyStage};
use ghee::job::Job;
use ghee::policies::{PreservePolicy, PreservePolicyMin, PreservePolicyMinVariants};
use ghee::timestamp::Timestamp;

fn ts(y: u64, mo: u64, d: u64, h: u64, mi: u64, s: u64) -> Timestamp {
    Timestamp::new(y, mo, d, h, mi, s, 0).expect("valid timestamp")
}

fn job(retention: &str, min: PreservePolicyMin) -> Job {
    Job {
        subvolume: String::from("/data/sub"),
        target: String::from("/backups"),
        groups: None,
        preserve: PreservePolicy { retention: String::from(retention), min },
    }
}

fn delete_intent(job_idx: usize, stamp: &str) -> Intent {
    Intent {
        intent: IntentType::Delete,
        subvolume: String::from("/data/sub"),
        target: String::from("/backups/x"),
        name: format!("sub.{}", stamp),
        job: job_idx,
    }
}

fn kinds(intents: &[Intent]) -> Vec<IntentType> {
    intents.iter().map(|i| i.intent).collect()
}

#[test]
fn count_keeps_the_newest_regardless_of_retention() {
    // five deletion candidates an hour apart, far in the past of "now"
    for retention in ["", "3h2d", "1y"] {
        let jobs = vec![job(retention, PreservePolicyMin::Count(2))];
        let now = ts(2022, 10, 22, 12, 0, 0);
        let mut intents = vec![
            delete_intent(0, "2020-01-01T04:00:00+00:00"),
            delete_intent(0, "2020-01-01T00:00:00+00:00"),
            delete_intent(0, "2020-01-01T03:00:00+00:00"),
            delete_intent(0, "2020-01-01T01:00:00+00:00"),
            delete_intent(0, "2020-01-01T02:00:00+00:00"),
        ];
        let events = Intent::delete_to_keep_intents(&mut intents, &jobs, &now);
        assert!(events.is_empty());
        // exactly the two newest (04:00 and 03:00) survive
        assert_eq!(
            kinds(&intents),
            vec![
                IntentType::Keep,
                IntentType::Delete,
                IntentType::Keep,
                IntentType::Delete,
                IntentType::Delete,
            ]
        );
    }
}

#[test]
fn latest_keeps_only_the_newest() {
    let jobs = vec![job(
        "",
        PreservePolicyMin::Variant(PreservePolicyMinVariants::Latest),
    )];
    let now = ts(2022, 10, 22, 12, 0, 0);
    let mut intents = vec![
        delete_intent(0, "2020-01-01T00:00:00+00:00"),
        delete_intent(0, "2020-01-01T05:00:00+00:00"),
        delete_intent(0, "2020-01-01T03:00:00+00:00"),
    ];
    let events = Intent::delete_to_keep_intents(&mut intents, &jobs, &now);
    assert!(events.is_empty());
    assert_eq!(
        kinds(&intents),
        vec![IntentType::Delete, IntentType::Keep, IntentType::Delete]
    );
}

#[test]
fn all_keeps_everything() {
    let jobs = vec![job(
        "",
        PreservePolicyMin::Variant(PreservePolicyMinVariants::All),
    )];
    let now = ts(2022, 10, 22, 12, 0, 0);
    let mut intents = vec![
        delete_intent(0, "2020-01-01T00:00:00+00:00"),
        delete_intent(0, "2020-01-01T05:00:00+00:00"),
    ];
    let events = Intent::delete_to_keep_intents(&mut intents, &jobs, &now);
    assert!(events.is_empty());
    assert_eq!(kinds(&intents), vec![IntentType::Keep, IntentType::Keep]);
}

#[test]
fn bad_timespan_keeps_everything_and_reports() {
    let jobs = vec![job(
        "",
        PreservePolicyMin::Timespan(String::from("not-a-duration")),
    )];
    let now = ts(2022, 10, 22, 12, 0, 0);
    let mut intents = vec![
        delete_intent(0, "2020-01-01T00:00:00+00:00"),
        delete_intent(0, "2020-01-01T05:00:00+00:00"),
        delete_intent(0, "2020-01-01T03:00:00+00:00"),
    ];
    let events = Intent::delete_to_keep_intents(&mut intents, &jobs, &now);
    assert_eq!(
        events,
        vec![PolicyEvent { job: 0, stage: PolicyStage::MinPreserve }]
    );
    // fail safe: nothing of this job is deleted
    assert_eq!(
        kinds(&intents),
        vec![IntentType::Keep, IntentType::Keep, IntentType::Keep]
    );
}

#[test]
fn bad_retention_keeps_everything_and_reports() {
    let jobs = vec![job("bogus", PreservePolicyMin::Count(0))];
    let now = ts(2022, 10, 22, 12, 0, 0);
    let mut intents = vec![
        delete_intent(0, "2020-01-01T00:00:00+00:00"),
        delete_intent(0, "2020-01-01T05:00:00+00:00"),
    ];
    let events = Intent::delete_to_keep_intents(&mut intents, &jobs, &now);
    assert_eq!(
        events,
        vec![PolicyEvent { job: 0, stage: PolicyStage::Retention }]
    );
    assert_eq!(kinds(&intents), vec![IntentType::Keep, IntentType::Keep]);
}

#[test]
fn timespan_keeps_candidates_inside_the_window() {
    let jobs = vec![job("", PreservePolicyMin::Timespan(String::from("1d")))];
    let now = ts(2022, 10, 22, 12, 0, 0);
    let mut intents = vec![
        // 6 hours old: inside the one-day window
        delete_intent(0, "2022-10-22T06:00:00+00:00"),
        // two years old: outside the window and in no live bucket
        delete_intent(0, "2020-10-19T12:00:00+00:00"),
    ];
    let events = Intent::delete_to_keep_intents(&mut intents, &jobs, &now);
    assert!(events.is_empty());
    assert_eq!(intents[0].intent, IntentType::Keep);
    assert_eq!(intents[1].intent, IntentType::Delete);
}

#[test]
fn kinds_only_move_from_delete_to_keep() {
    let jobs = vec![job(
        "",
        PreservePolicyMin::Variant(PreservePolicyMinVariants::All),
    )];
    let now = ts(2022, 10, 22, 12, 0, 0);
    let create = Intent {
        intent: IntentType::Create,
        subvolume: String::from("/data/sub"),
        target: String::from("/backups"),
        name: String::from("sub.2022-10-22T12:00:00+00:00"),
        job: 0,
    };
    let keep = Intent {
        intent: IntentType::Keep,
        subvolume: String::from("/data/sub"),
        target: String::from("/backups/y"),
        name: String::from("sub.2022-10-20T12:00:00+00:00"),
        job: 0,
    };
    let mut intents = vec![
        create,
        delete_intent(0, "2020-01-01T00:00:00+00:00"),
        keep,
    ];
    let before: Vec<IntentType> = kinds(&intents);
    let events = Intent::delete_to_keep_intents(&mut intents, &jobs, &now);
    assert!(events.is_empty());
    let after = kinds(&intents);
    // Create and Keep are untouched; Delete only ever becomes Keep
    assert_eq!(before[0], IntentType::Create);
    assert_eq!(after[0], IntentType::Create);
    assert_eq!(before[2], IntentType::Keep);
    assert_eq!(after[2], IntentType::Keep);
    assert_eq!(after[1], IntentType::Keep);
    // the other fields never change
    assert_eq!(intents[0].name, "sub.2022-10-22T12:00:00+00:00");
    assert_eq!(intents[1].subvolume, "/data/sub");
}

#[test]
fn gfs_hourly_buckets_hold_one_candidate_each() {
    // hourly retention 2 builds three hour boundaries (count + 1); five
    // candidates an hour apart on the same day as "now": the newest three
    // take the hour buckets, the fourth falls through to the single day
    // bucket, and the fifth finds every reachable bucket taken.
    let jobs = vec![job("2h", PreservePolicyMin::Count(0))];
    let now = ts(2022, 10, 22, 5, 30, 0);
    let mut intents = vec![
        delete_intent(0, "2022-10-22T05:30:00+00:00"),
        delete_intent(0, "2022-10-22T04:30:00+00:00"),
        delete_intent(0, "2022-10-22T03:30:00+00:00"),
        delete_intent(0, "2022-10-22T02:30:00+00:00"),
        delete_intent(0, "2022-10-22T01:30:00+00:00"),
    ];
    let events = Intent::delete_to_keep_intents(&mut intents, &jobs, &now);
    assert!(events.is_empty());
    assert_eq!(
        kinds(&intents),
        vec![
            IntentType::Keep,
            IntentType::Keep,
            IntentType::Keep,
            IntentType::Keep,
            IntentType::Delete,
        ]
    );
}

#[test]
fn first_stored_candidate_wins_a_bucket() {
    // both candidates truncate to the same hour bucket; fed newest first,
    // the newer one takes it and the older one stays a deletion candidate
    let jobs = vec![job("2h", PreservePolicyMin::Count(0))];
    let now = ts(2022, 10, 22, 5, 30, 0);
    let mut intents = vec![
        delete_intent(0, "2022-10-22T05:10:00+00:00"),
        delete_intent(0, "2022-10-22T05:20:00+00:00"),
    ];
    let events = Intent::delete_to_keep_intents(&mut intents, &jobs, &now);
    assert!(events.is_empty());
    assert_eq!(kinds(&intents), vec![IntentType::Delete, IntentType::Keep]);
}

#[test]
fn degradation_events_come_in_job_and_stage_order() {
    let jobs = vec![
        job("bogus", PreservePolicyMin::Timespan(String::from("nope"))),
        job("", PreservePolicyMin::Count(0)),
        job("also bad", PreservePolicyMin::Count(0)),
    ];
    let now = ts(2022, 10, 22, 12, 0, 0);
    let mut intents = vec![delete_intent(0, "2020-01-01T00:00:00+00:00")];
    let events = Intent::delete_to_keep_intents(&mut intents, &jobs, &now);
    assert_eq!(
        events,
        vec![
            PolicyEvent { job: 0, stage: PolicyStage::MinPreserve },
            PolicyEvent { job: 0, stage: PolicyStage::Retention },
            PolicyEvent { job: 2, stage: PolicyStage::Retention },
        ]
    );
    assert_eq!(kinds(&intents), vec![IntentType::Keep]);
}

#[test]
fn jobs_are_scheduled_independently() {
    let jobs = vec![
        job("", PreservePolicyMin::Variant(PreservePolicyMinVariants::All)),
        job("", PreservePolicyMin::Count(0)),
    ];
    let now = ts(2022, 10, 22, 12, 0, 0);
    let mut intents = vec![
        delete_intent(0, "2020-01-01T00:00:00+00:00"),
        delete_intent(1, "2020-01-01T00:00:00+00:00"),
    ];
    let events = Intent::delete_to_keep_intents(&mut intents, &jobs, &now);
    assert!(events.is_empty());
    assert_eq!(intents[0].intent, IntentType::Keep);
    assert_eq!(intents[1].intent, IntentType::Delete);
}
