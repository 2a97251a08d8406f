use tdm_history::error::HistoryError;
use tdm_history::history::{DownloadStage, Histories, HistoryDownload};

fn record(file_name: &str, url: &str) -> HistoryDownload {
    HistoryDownload {
        file_name: file_name.to_owned(),
        url: url.to_owned(),
        stage_download: DownloadStage::READY,
    }
}

#[test]
fn test_history_insert() {
    let mut histories_arr = Histories::new();

    assert_eq!(0, histories_arr.list().len());

    let download_history = record("test.txt", "https://downlaod.com");

    histories_arr.add_history(download_history);

    assert_eq!(1, histories_arr.list().len());

    let histories_one = histories_arr.get_history(1).unwrap();

    assert_eq!("test.txt", histories_one.file_name);
}

#[test]
fn test_history_save() {
    let mut histories_arr = Histories::new();

    assert_eq!(0, histories_arr.list().len());

    let download_history = record("test.txt", "https://downlaod.com");

    histories_arr.add_history(download_history);

    assert_eq!(1, histories_arr.list().len());

    let saved = histories_arr.save_history();

    let histories_arr_2 = Histories::load(Some(&saved)).unwrap();

    let histo_1 = histories_arr.get_history(1).unwrap();
    let histo_2 = histories_arr_2.get_history(1).unwrap();

    let url_1 = &histo_1.url;
    let url_2 = &histo_2.url;

    assert_eq!(url_2, url_1);
}

#[test]
fn test_history_overwrite() {
    let mut histories_arr = Histories::new();

    let download_history = record("test.txt", "https://downlaod.com");

    histories_arr.add_history(download_history);
    let _ = histories_arr.save_history();

    let download_history_1 = record("test1.txt", "https://downlaod1.com");

    histories_arr.add_history(download_history_1);
    let saved = histories_arr.save_history();

    let history_test = Histories::load(Some(&saved)).unwrap();

    assert_eq!(2, history_test.list().len());
}

#[test]
fn test_history_swap() {
    let mut histo_arr = Histories::new();
    let download_history = record("test.txt", "https://downlaod.com");
    let download_history_1 = record("test1.txt", "https://downlaod1.com");
    let download_history_2 = record("test2.txt", "https://downlaod2.com");
    let download_history_3 = record("test3.txt", "https://downlaod3.com");

    histo_arr.add_history(download_history);
    histo_arr.add_history(download_history_1);
    histo_arr.add_history(download_history_2);
    histo_arr.add_history(download_history_3);

    histo_arr.swap_position(2, 3).unwrap();

    let histo_2 = histo_arr.get_history(2).unwrap();
    assert_eq!("https://downlaod2.com", histo_2.url);

    let histo_3 = histo_arr.get_history(3).unwrap();
    assert_eq!("https://downlaod1.com", histo_3.url);
}

#[test]
fn test_history_remove() {
    let mut histo_arr = Histories::new();
    let download_history = record("test.txt", "https://downlaod.com");
    let download_history_1 = record("test1.txt", "https://downlaod1.com");

    histo_arr.add_history(download_history);
    histo_arr.add_history(download_history_1);

    histo_arr.remove_history(2);

    assert_eq!(1, histo_arr.list().len());

    let res = histo_arr.get_history(2);

    assert!(res.is_err());
}

#[test]
fn test_history_update() {
    let mut histo_arr = Histories::new();
    let download_history = record("test.txt", "https://downlaod.com");

    histo_arr.add_history(download_history);

    let merging = DownloadStage::MERGING;

    histo_arr.update_stage(1, merging.clone());

    let stage = &histo_arr.get_history(1).unwrap().stage_download;

    assert_eq!(merging, stage.clone());
}

#[test]
fn test_history_test() {
    let mut histo_arr = Histories::new();
    let download_history = record("test.txt", "https://downlaod.com");
    let download_history_1 = record("test1.txt", "https://downlaod1.com");
    let download_history_2 = record("test2.txt", "https://downlaod2.com");
    let download_history_3 = record("test3.txt", "https://downlaod3.com");

    histo_arr.add_history(download_history);
    histo_arr.add_history(download_history_1);
    histo_arr.add_history(download_history_2);
    histo_arr.add_history(download_history_3);

    let res = histo_arr.list().iter().collect::<Vec<_>>();

    assert!(res.len() > 0);
}

#[test]
fn fresh_load_on_missing_file_is_empty() {
    let store = Histories::load(None).unwrap();
    assert_eq!(0, store.list().len());
    assert!(store.get_history(1).is_err());
}

#[test]
fn add_returns_usable_key() {
    let mut store = Histories::new();
    let k = store.add_history(record("a.txt", "https://a.example"));
    assert_eq!(1, k);
    let got = store.get_history(k).unwrap();
    assert_eq!("a.txt", got.file_name);
    assert_eq!("https://a.example", got.url);
    assert_eq!(DownloadStage::READY, got.stage_download);
}

#[test]
fn keys_are_monotonic_even_after_remove() {
    let mut store = Histories::new();
    let k1 = store.add_history(record("a.txt", "https://a.example"));
    let k2 = store.add_history(record("b.txt", "https://b.example"));
    assert_eq!((1, 2), (k1, k2));
    assert_eq!("b.txt", store.remove_history(k2).unwrap().file_name);
    let k3 = store.add_history(record("c.txt", "https://c.example"));
    assert!(k3 > k2);
    assert_eq!(3, k3);
}

#[test]
fn swap_is_a_true_exchange() {
    let mut store = Histories::new();
    store.add_history(record("a.txt", "https://a.example"));
    store.add_history(record("b.txt", "https://b.example"));
    store.add_history(record("c.txt", "https://c.example"));
    store.add_history(record("d.txt", "https://d.example"));

    store.swap_position(2, 3).unwrap();

    assert_eq!("a.txt", store.get_history(1).unwrap().file_name);
    assert_eq!("c.txt", store.get_history(2).unwrap().file_name);
    assert_eq!("b.txt", store.get_history(3).unwrap().file_name);
    assert_eq!("d.txt", store.get_history(4).unwrap().file_name);
}

#[test]
fn swap_with_missing_key_fails_and_changes_nothing() {
    let mut store = Histories::new();
    store.add_history(record("a.txt", "https://a.example"));

    assert_eq!(Err(HistoryError::NotFound(5)), store.swap_position(5, 1));
    assert_eq!(Err(HistoryError::NotFound(5)), store.swap_position(1, 5));
    assert_eq!(1, store.list().len());
    assert_eq!("a.txt", store.get_history(1).unwrap().file_name);
}

#[test]
fn remove_then_get_fails_with_not_found() {
    let mut store = Histories::new();
    let k = store.add_history(record("a.txt", "https://a.example"));
    let removed = store.remove_history(k).unwrap();
    assert_eq!("a.txt", removed.file_name);
    match store.get_history(k) {
        Err(e) => assert_eq!(HistoryError::NotFound(k), e),
        Ok(_) => panic!("lookup after remove must fail"),
    }
    assert!(store.remove_history(k).is_none());
}

#[test]
fn update_stage_on_missing_key_is_a_no_op() {
    let mut store = Histories::new();
    store.add_history(record("a.txt", "https://a.example"));
    store.update_stage(99, DownloadStage::COMPLETE);
    assert_eq!(1, store.list().len());
    assert_eq!(
        DownloadStage::READY,
        store.get_history(1).unwrap().stage_download
    );
}

#[test]
fn scenario_three_records() {
    let mut store = Histories::new();
    let k1 = store.add_history(record("a.txt", "https://a.example"));
    let k2 = store.add_history(record("b.txt", "https://b.example"));
    let k3 = store.add_history(record("c.txt", "https://c.example"));
    assert_eq!((1, 2, 3), (k1, k2, k3));

    store.update_stage(2, DownloadStage::MERGING);
    assert_eq!(
        DownloadStage::MERGING,
        store.get_history(2).unwrap().stage_download
    );

    let listed = store.list();
    assert_eq!(3, listed.len());
    assert_eq!((1, "a.txt"), (listed[0].0, listed[0].1.file_name.as_str()));
    assert_eq!((2, "b.txt"), (listed[1].0, listed[1].1.file_name.as_str()));
    assert_eq!((3, "c.txt"), (listed[2].0, listed[2].1.file_name.as_str()));
}

#[test]
fn saved_bytes_follow_the_documented_format() {
    let mut store = Histories::new();
    store.add_history(record("test.txt", "https://downlaod.com"));
    let saved = store.save_history();
    let expected = "key: 00000000000000000001\n\
                    file_name: 00000000000000000008:test.txt\n\
                    url: 00000000000000000020:https://downlaod.com\n\
                    stage_download: READY\n";
    assert_eq!(expected.as_bytes(), saved.as_slice());
}

#[test]
fn every_stage_survives_a_round_trip() {
    let mut store = Histories::new();
    store.add_history(record("a.txt", "https://a.example"));
    store.add_history(record("b.txt", "https://b.example"));
    store.add_history(record("c.txt", "https://c.example"));
    store.add_history(record("d.txt", "https://d.example"));
    store.update_stage(2, DownloadStage::DOWNLOADING);
    store.update_stage(3, DownloadStage::MERGING);
    store.update_stage(4, DownloadStage::COMPLETE);

    let reloaded = Histories::load(Some(&store.save_history())).unwrap();
    assert_eq!(DownloadStage::READY, reloaded.get_history(1).unwrap().stage_download);
    assert_eq!(DownloadStage::DOWNLOADING, reloaded.get_history(2).unwrap().stage_download);
    assert_eq!(DownloadStage::MERGING, reloaded.get_history(3).unwrap().stage_download);
    assert_eq!(DownloadStage::COMPLETE, reloaded.get_history(4).unwrap().stage_download);
}

#[test]
fn round_trip_keeps_text_with_line_breaks_and_non_ascii() {
    let mut store = Histories::new();
    store.add_history(record("tricky\nname: x\n", "https://\u{2603}.example/\u{e9}t\u{e9}"));
    store.add_history(record("", ""));

    let reloaded = Histories::load(Some(&store.save_history())).unwrap();
    assert_eq!(2, reloaded.list().len());
    assert_eq!("tricky\nname: x\n", reloaded.get_history(1).unwrap().file_name);
    assert_eq!(
        "https://\u{2603}.example/\u{e9}t\u{e9}",
        reloaded.get_history(1).unwrap().url
    );
    assert_eq!("", reloaded.get_history(2).unwrap().file_name);
    assert_eq!("", reloaded.get_history(2).unwrap().url);
}

#[test]
fn empty_store_round_trips_through_empty_bytes() {
    let store = Histories::new();
    let saved = store.save_history();
    assert!(saved.is_empty());
    let reloaded = Histories::load(Some(&saved)).unwrap();
    assert_eq!(0, reloaded.list().len());
}

#[test]
fn garbage_bytes_fail_to_deserialize() {
    let garbage = b"not a history file".to_vec();
    match Histories::load(Some(&garbage)) {
        Err(e) => assert_eq!(HistoryError::DeserializeFailed, e),
        Ok(_) => panic!("garbage must not load"),
    }
}

#[test]
fn file_with_unsorted_keys_fails_to_deserialize() {
    let text = "key: 00000000000000000002\n\
                file_name: 00000000000000000005:b.txt\n\
                url: 00000000000000000017:https://b.example\n\
                stage_download: READY\n\
                key: 00000000000000000001\n\
                file_name: 00000000000000000005:a.txt\n\
                url: 00000000000000000017:https://a.example\n\
                stage_download: READY\n";
    let res = Histories::load(Some(&text.as_bytes().to_vec()));
    assert!(res.is_err());
}

#[test]
fn file_with_duplicate_keys_fails_to_deserialize() {
    let text = "key: 00000000000000000001\n\
                file_name: 00000000000000000005:a.txt\n\
                url: 00000000000000000017:https://a.example\n\
                stage_download: READY\n\
                key: 00000000000000000001\n\
                file_name: 00000000000000000005:b.txt\n\
                url: 00000000000000000017:https://b.example\n\
                stage_download: READY\n";
    let res = Histories::load(Some(&text.as_bytes().to_vec()));
    assert!(res.is_err());
}

#[test]
fn truncated_file_fails_to_deserialize() {
    let mut store = Histories::new();
    store.add_history(record("a.txt", "https://a.example"));
    let mut saved = store.save_history();
    saved.pop();
    assert!(Histories::load(Some(&saved)).is_err());
}

#[test]
fn check_config_file_joins_only_when_the_file_exists() {
    assert_eq!(
        Some("/home/user/.config/tdm/history.txt".to_owned()),
        Histories::check_config_file("/home/user/.config/tdm", "history.txt", true)
    );
    assert_eq!(
        None,
        Histories::check_config_file("/home/user/.config/tdm", "history.txt", false)
    );
}

#[test]
fn loaded_store_continues_key_assignment_past_the_saved_maximum() {
    let mut store = Histories::new();
    store.add_history(record("a.txt", "https://a.example"));
    store.add_history(record("b.txt", "https://b.example"));
    store.remove_history(1);

    let mut reloaded = Histories::load(Some(&store.save_history())).unwrap();
    let k = reloaded.add_history(record("c.txt", "https://c.example"));
    assert_eq!(3, k);
}
