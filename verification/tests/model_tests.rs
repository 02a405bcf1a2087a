use ghee::error::{ConfigfileExtensionError, DurationParseError};
use ghee::executed_intent::ExecutedIntent;
use ghee::intent::{basename_of, is_snapshot_name, Intent, IntentType};
use ghee::job::Job;
use ghee::policies::{ConfigScalar, PreservePolicy, PreservePolicyMin, PreservePolicyMinVariants};
use ghee::retention::Retention;
use ghee::timestamp::{format_rfc3339, now_local, parse_rfc3339, Timestamp};

fn ts(y: u64, mo: u64, d: u64, h: u64, mi: u64, s: u64) -> Timestamp {
    Timestamp::new(y, mo, d, h, mi, s, 0).expect("valid timestamp")
}

#[test]
fn retention_parses_the_grammar() {
    let r = Retention::from_str("").unwrap();
    assert_eq!((r.h, r.d, r.w, r.m, r.y), (0, 0, 0, 0, 0));
    let r = Retention::from_str("3h2d1w4m5y").unwrap();
    assert_eq!((r.h, r.d, r.w, r.m, r.y), (3, 2, 1, 4, 5));
    assert!(Retention::from_str("3d3h").is_err());
    let r = Retention::from_str_option(&None).unwrap();
    assert_eq!((r.h, r.d, r.w, r.m, r.y), (0, 0, 0, 0, 0));
    let r = Retention::from_str_option(&Some(String::from("2w"))).unwrap();
    assert_eq!((r.h, r.d, r.w, r.m, r.y), (0, 0, 2, 0, 0));
    // a count beyond the machine range is a parse error, not a wrap-around
    assert!(Retention::from_str("99999999999999999999h").is_err());
}

#[test]
fn timestamps_render_and_parse_back() {
    let t = Timestamp::new(2022, 12, 31, 15, 38, 17, 3600).unwrap();
    let rendered = format_rfc3339(&t);
    assert_eq!(rendered, "2022-12-31T15:38:17+01:00");
    assert_eq!(parse_rfc3339(&rendered), Some(t));
    let t = Timestamp::new(2020, 2, 29, 0, 0, 0, -19800).unwrap();
    let rendered = format_rfc3339(&t);
    assert_eq!(rendered, "2020-02-29T00:00:00-05:30");
    assert_eq!(parse_rfc3339(&rendered), Some(t));
}

#[test]
fn rfc3339_parser_rejects_bad_shapes() {
    assert_eq!(parse_rfc3339("2022-12-31T15:38:17"), None);
    assert_eq!(parse_rfc3339("2022-13-01T00:00:00+00:00"), None);
    assert_eq!(parse_rfc3339("2022-02-30T00:00:00+00:00"), None);
    assert_eq!(parse_rfc3339("2022-12-31T24:00:00+00:00"), None);
    assert_eq!(parse_rfc3339("2022-12-31 15:38:17+00:00"), None);
    assert!(parse_rfc3339("2022-12-31T15:38:17Z").is_some());
    assert_eq!(
        parse_rfc3339("2022-12-31T15:38:17Z"),
        parse_rfc3339("2022-12-31T15:38:17+00:00")
    );
}

#[test]
fn intent_timestamps_come_from_the_name() {
    let intent = Intent {
        intent: IntentType::Delete,
        subvolume: String::from("/data/sub"),
        target: String::from("/backups/sub.2022-10-22T05:30:00+00:00"),
        name: String::from("sub.2022-10-22T05:30:00+00:00"),
        job: 0,
    };
    assert_eq!(intent.timestamp(), Some(ts(2022, 10, 22, 5, 30, 0)));
    let nameless = Intent { name: String::from("no timestamp here"), ..intent };
    assert_eq!(nameless.timestamp(), None);
}

#[test]
fn snapshot_names_match_base_dot_timestamp() {
    assert!(is_snapshot_name("sub", "sub.2022-10-22T05:30:00+00:00"));
    assert!(is_snapshot_name("sub", "sub.2022-10-22T05:30:00Z"));
    assert!(!is_snapshot_name("sub", "sub.2022-10-22T05:30:00"));
    assert!(!is_snapshot_name("sub", "other.2022-10-22T05:30:00+00:00"));
    assert!(!is_snapshot_name("sub", "sub2022-10-22T05:30:00+00:00"));
    assert!(!is_snapshot_name("sub", "sub."));
}

#[test]
fn basenames_follow_the_last_slash() {
    assert_eq!(basename_of("/data/home"), Some("home"));
    assert_eq!(basename_of("/data/home/"), Some("home"));
    assert_eq!(basename_of("home"), Some("home"));
    assert_eq!(basename_of("/"), None);
    assert_eq!(basename_of(""), None);
}

#[test]
fn create_intents_carry_a_parseable_name() {
    let job = Job {
        subvolume: String::from("/data/sub"),
        target: String::from("/backups"),
        groups: None,
        preserve: PreservePolicy {
            retention: String::from("1h"),
            min: PreservePolicyMin::Count(1),
        },
    };
    let now = Timestamp::new(2022, 10, 22, 5, 30, 0, 7200).unwrap();
    let intent = Intent::create_for_job(&job, 3, &now).unwrap();
    assert_eq!(intent.intent, IntentType::Create);
    assert_eq!(intent.name, "sub.2022-10-22T05:30:00+02:00");
    assert_eq!(intent.job, 3);
    assert_eq!(intent.timestamp(), Some(now));
    let rootless = Job { subvolume: String::from("/"), ..job };
    assert!(Intent::create_for_job(&rootless, 0, &now).is_none());
}

#[test]
fn min_policy_decoding_resolves_the_ambiguous_shape() {
    let m = PreservePolicyMin::decode(ConfigScalar::Text(String::from("All")));
    assert_eq!(m, PreservePolicyMin::Variant(PreservePolicyMinVariants::All));
    let m = PreservePolicyMin::decode(ConfigScalar::Text(String::from("latest")));
    assert_eq!(m, PreservePolicyMin::Variant(PreservePolicyMinVariants::Latest));
    let m = PreservePolicyMin::decode(ConfigScalar::Unsigned(4));
    assert_eq!(m, PreservePolicyMin::Count(4));
    let m = PreservePolicyMin::decode(ConfigScalar::Text(String::from("2d")));
    assert_eq!(m, PreservePolicyMin::Timespan(String::from("2d")));
}

#[test]
fn group_filter_selects_matching_jobs() {
    let mk = |groups: Option<Vec<&str>>| Job {
        subvolume: String::from("/data/sub"),
        target: String::from("/backups"),
        groups: groups.map(|gs| gs.into_iter().map(String::from).collect()),
        preserve: PreservePolicy {
            retention: String::from(""),
            min: PreservePolicyMin::Count(1),
        },
    };
    let jobs = vec![
        mk(Some(vec!["home", "nightly"])),
        mk(None),
        mk(Some(vec!["work"])),
    ];
    let all = Job::filter_active_groups(&jobs, &Vec::new());
    assert_eq!(all.len(), 3);
    let picked = Job::filter_active_groups(&jobs, &vec![String::from("work")]);
    assert_eq!(picked.len(), 1);
    assert_eq!(picked[0].groups, Some(vec![String::from("work")]));
    let none = Job::filter_active_groups(&jobs, &vec![String::from("nope")]);
    assert_eq!(none.len(), 0);
}

#[test]
fn executed_intents_record_the_outcome() {
    let intent = Intent {
        intent: IntentType::Keep,
        subvolume: String::from("/data/sub"),
        target: String::from("/backups/x"),
        name: String::from("sub.2022-10-22T05:30:00+00:00"),
        job: 0,
    };
    let done = ExecutedIntent::new(&intent, true);
    assert_eq!(done.intent, IntentType::Keep);
    assert_eq!(done.subvolume, "/data/sub");
    assert_eq!(done.target, "/backups/x");
    assert_eq!(done.name, "sub.2022-10-22T05:30:00+00:00");
    assert!(done.success);
    let failed = ExecutedIntent::new(&intent, false);
    assert!(!failed.success);
}

#[test]
fn error_messages_name_their_cause() {
    assert_eq!(
        DurationParseError.message(),
        "Error while parsing Duration from String"
    );
    assert_eq!(
        ConfigfileExtensionError.message(),
        "Error while parsing file extension from configuration file name"
    );
}

#[test]
fn the_clock_yields_a_wellformed_timestamp() {
    // the current date lies comfortably inside the model's range
    let now = now_local().expect("current time in range");
    let (y, mo, d, h, mi, s) = {
        let f = now.fields();
        (f.0, f.1, f.2, f.3, f.4, f.5)
    };
    assert!((1..=9999).contains(&y));
    assert!((1..=12).contains(&mo));
    assert!((1..=31).contains(&d));
    assert!(h <= 23 && mi <= 59 && s <= 59);
    // the rendering of the current time embeds parseably into a name
    let rendered = format_rfc3339(&now);
    assert_eq!(parse_rfc3339(&rendered), Some(now));
}
