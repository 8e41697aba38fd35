use starkeeper::logos::{
    appid_text, parse_appid, pending_appids, unix_now, unix_seconds, AppReply, LoaderAction,
    LoaderEvent, LogoLoader, LogoWrite, BATCH_SIZE,
};

fn strings(xs: &[&str]) -> Vec<String> {
    xs.iter().map(|x| x.to_string()).collect()
}

#[test]
fn parse_appid_like_u32_from_str() {
    for text in ["440", "+7", "007", "0", "4294967295", "4294967296", "", "+", "-1", " 1", "1 ", "12a", "99999999999999999999"] {
        assert_eq!(parse_appid(text), text.parse::<u32>().ok(), "{text:?}");
    }
}

#[test]
fn appid_text_reads_back() {
    for id in [0u32, 7, 440, 4294967295] {
        assert_eq!(appid_text(id), id.to_string());
        assert_eq!(parse_appid(&appid_text(id)), Some(id));
    }
}

#[test]
fn pending_appids_skips_bad_rows() {
    assert_eq!(pending_appids(&strings(&["10", "x", "20", "", "-3", "30"])), vec![10, 20, 30]);
    assert_eq!(pending_appids(&Vec::new()), Vec::<u32>::new());
}

#[test]
fn batch_size_value() {
    assert_eq!(BATCH_SIZE, 200);
}

#[test]
fn loader_finishes_without_pending_apps() {
    let mut l = LogoLoader::new();
    assert!(matches!(l.step(LoaderEvent::Rows(strings(&["junk"]))), LoaderAction::Finish));
    assert!(matches!(l.step(LoaderEvent::Rows(Vec::new())), LoaderAction::Finish));
}

#[test]
fn loader_fetches_then_records_failure() {
    let mut l = LogoLoader::new();
    match l.step(LoaderEvent::Rows(strings(&["10", "20"]))) {
        LoaderAction::Fetch(ids) => assert_eq!(ids, vec![10, 20]),
        _ => panic!("expected a fetch"),
    }
    match l.step(LoaderEvent::Reply(Err("timed out".to_string()))) {
        LoaderAction::Store { writes, notes, pause } => {
            assert!(!pause);
            assert_eq!(notes, vec![None, None]);
            assert_eq!(writes.len(), 2);
            match &writes[0] {
                LogoWrite::Failed { appid, error } => {
                    assert_eq!(*appid, 10);
                    assert_eq!(error, "appid=10: PICS request failed: timed out");
                }
                _ => panic!("expected a failure"),
            }
            match &writes[1] {
                LogoWrite::Failed { appid, error } => {
                    assert_eq!(*appid, 20);
                    assert_eq!(error, "appid=20: PICS request failed: timed out");
                }
                _ => panic!("expected a failure"),
            }
        }
        _ => panic!("expected writes"),
    }
}

#[test]
fn loader_records_reply() {
    let mut l = LogoLoader::new();
    l.step(LoaderEvent::Rows(strings(&["10", "20", "30"])));
    let good = br#""appinfo" { "common" { "library_assets" { "library_capsule" { "image" { "english" "capsule_file.jpg" } } } } }"#;
    let apps = vec![
        AppReply { appid: 20, buffer: good.to_vec() },
        AppReply { appid: 30, buffer: vec![0xff] },
    ];
    match l.step(LoaderEvent::Reply(Ok(apps))) {
        LoaderAction::Store { writes, notes, pause } => {
            assert!(pause);
            assert_eq!(writes.len(), 3);
            match &writes[0] {
                LogoWrite::Failed { appid, error } => {
                    assert_eq!(*appid, 10);
                    assert_eq!(error, "appid=10: not in PICS response");
                }
                _ => panic!("expected the missing app first"),
            }
            match &writes[1] {
                LogoWrite::Resolved { appid, capsule_url, hero_url, logo_url, error } => {
                    assert_eq!(*appid, 20);
                    assert_eq!(capsule_url.as_deref(), Some("https://steamcdn-a.akamaihd.net/steam/apps/20/capsule_file.jpg"));
                    assert_eq!(*hero_url, None);
                    assert_eq!(*logo_url, None);
                    assert_eq!(*error, None);
                }
                _ => panic!("expected a resolved app"),
            }
            let msg = std::str::from_utf8(&[0xff]).unwrap_err().to_string();
            match &writes[2] {
                LogoWrite::Resolved { appid, capsule_url, error, .. } => {
                    assert_eq!(*appid, 30);
                    assert_eq!(*capsule_url, None);
                    assert_eq!(error.as_deref(), Some(format!("appid=30: {msg}").as_str()));
                }
                _ => panic!("expected a resolved app"),
            }
            assert_eq!(
                notes,
                vec![
                    Some("LOGOS: appid=10: not in PICS response".to_string()),
                    None,
                    Some(format!("LOGOS: appid=30: parse error: {msg}")),
                ]
            );
        }
        _ => panic!("expected writes"),
    }
}

#[test]
fn every_app_of_a_batch_is_written() {
    let mut l = LogoLoader::new();
    l.step(LoaderEvent::Rows(strings(&["1", "2", "3"])));
    let apps = vec![AppReply { appid: 2, buffer: Vec::new() }, AppReply { appid: 99, buffer: Vec::new() }];
    if let LoaderAction::Store { writes, .. } = l.step(LoaderEvent::Reply(Ok(apps))) {
        let ids: Vec<u32> = writes
            .iter()
            .map(|w| match w {
                LogoWrite::Failed { appid, .. } => *appid,
                LogoWrite::Resolved { appid, .. } => *appid,
            })
            .collect();
        for id in [1, 2, 3] {
            assert!(ids.contains(&id));
        }
    } else {
        panic!("expected writes");
    }
}

#[test]
fn unix_time() {
    assert_eq!(unix_seconds(None), 0);
    assert_eq!(unix_seconds(Some(1_700_000_000)), 1_700_000_000);
    assert_eq!(unix_seconds(Some(u64::MAX)), -1);
    assert!(unix_now() > 1_600_000_000);
}
