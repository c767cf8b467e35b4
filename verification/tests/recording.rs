use zen_signal::recorder::{
    channel_of_index, filter_points_in_range, overall_time_range, ChannelId, ReadOutcome,
    RecorderCommand, RecorderState,
};
use zen_signal::timeseries::Point;

fn fresh_state() -> RecorderState {
    RecorderState::new_at(1_000_000_000_000, 30, 10)
}

#[test]
fn test_channel_id_names() {
    assert_eq!(ChannelId::Ecg.group_name(), "ecg");
    assert_eq!(ChannelId::AccX.group_name(), "acc_x");
    assert_eq!(ChannelId::Hr.group_name(), "hr");
}

#[test]
fn channel_table_round_trip() {
    let all = ChannelId::all();
    assert_eq!(all.len(), 7);
    for (i, ch) in all.iter().enumerate() {
        assert_eq!(ch.index(), i);
        assert_eq!(channel_of_index(i), *ch);
    }
    assert_eq!(ChannelId::AccY.group_name(), "acc_y");
    assert_eq!(ChannelId::AccZ.group_name(), "acc_z");
    assert_eq!(ChannelId::Rr.group_name(), "rr");
    assert_eq!(ChannelId::Hrv.group_name(), "hrv");
}

#[test]
fn test_start_stop_recording() {
    let mut recorder = fresh_state();

    assert!(!recorder.is_recording());
    assert!(recorder.start_recording("recordings/session.h5".to_string()).is_ok());
    assert!(recorder.is_recording());
    assert!(recorder.stop_recording().is_ok());
    assert!(!recorder.is_recording());
}

#[test]
fn idempotent_stop() {
    let mut recorder = fresh_state();
    assert!(!recorder.is_recording());
    let r = recorder.stop_recording();
    assert!(r.is_ok());
    assert_eq!(r.unwrap(), false);
    assert!(!recorder.is_recording());
    // Stopping twice after a start is just as harmless.
    recorder.start_recording("out.h5".to_string()).unwrap();
    assert_eq!(recorder.stop_recording().unwrap(), true);
    assert_eq!(recorder.stop_recording().unwrap(), false);
}

#[test]
fn double_start_is_refused() {
    let mut recorder = fresh_state();
    assert!(recorder.start_recording("a.h5".to_string()).is_ok());
    assert!(recorder.start_recording("b.h5".to_string()).is_err());
    assert!(recorder.is_recording());
}

#[test]
fn staging_feeds_reads_before_cache() {
    let mut st = fresh_state();
    st.add_point(ChannelId::Ecg, 100, 1);
    st.add_point(ChannelId::Ecg, 200, 2);
    st.add_point(ChannelId::Ecg, 300, 3);
    match st.read_range_memory(ChannelId::Ecg, 150, 250) {
        ReadOutcome::Points(pts) => assert_eq!(pts, vec![Point { time: 200, value: 2 }]),
        ReadOutcome::NeedsDisk => panic!("staging data must answer the read"),
    }
    // Another channel has nothing staged, no cache, no file: empty.
    match st.read_range_memory(ChannelId::Hr, 0, 1000) {
        ReadOutcome::Points(pts) => assert!(pts.is_empty()),
        ReadOutcome::NeedsDisk => panic!("no file is open"),
    }
}

#[test]
fn flush_threshold_triggers_on_next_add() {
    let mut st = fresh_state();
    st.start_recording("session.h5".to_string()).unwrap();
    // 6250 points at 16 bytes each reach the 100 KB disk threshold.
    let mut action = None;
    for i in 0..6250u64 {
        let a = st.process_command(RecorderCommand::AddPoint {
            channel: ChannelId::Ecg,
            time: i,
            value: i as i32,
        });
        assert!(!a.stop);
        action = Some(a);
    }
    let last = action.unwrap();
    assert!(last.flush, "crossing the threshold must demand a flush");
    // The writer folds staging into the cache; staging empties, the cache
    // gains the chunk, and no point is lost.
    assert_eq!(st.total_points(), 6250);
    st.fold_into_cache();
    assert_eq!(st.total_points(), 6250);
    match st.read_range_memory(ChannelId::Ecg, 0, 6249) {
        ReadOutcome::Points(pts) => assert_eq!(pts.len(), 6250),
        ReadOutcome::NeedsDisk => panic!("flushed chunk must be served from the cache"),
    }
}

#[test]
fn flush_threshold_uses_full_budget_when_live() {
    let mut st = fresh_state();
    for i in 0..6250u64 {
        let a = st.process_command(RecorderCommand::AddPoint {
            channel: ChannelId::Hr,
            time: i,
            value: 60,
        });
        // Not recording: the threshold is the 10 MB budget, far away.
        assert!(!a.flush);
    }
}

#[test]
fn flush_and_stop_commands() {
    let mut st = fresh_state();
    let f = st.process_command(RecorderCommand::Flush);
    assert!(f.flush && !f.stop);
    let s = st.process_command(RecorderCommand::Stop);
    assert!(s.flush && s.stop);
}

#[test]
fn recorder_round_trip_through_flush_plan() {
    // Writing points, flushing, and reading the covered range back from
    // the written arrays returns the same points in the same order.
    let mut st = fresh_state();
    let pts: Vec<Point> = (0..100u64).map(|i| Point { time: 1000 + i, value: i as i32 }).collect();
    for p in &pts {
        st.add_point(ChannelId::Rr, p.time, p.value);
    }
    let plan = st.flush_plan();
    assert_eq!(plan.len(), 1);
    let chunk = &plan[0];
    assert_eq!(chunk.channel, ChannelId::Rr);
    assert_eq!(chunk.times.len(), 100);
    assert_eq!(chunk.values.len(), 100);
    let back = filter_points_in_range(&chunk.times, &chunk.values, 1000, 1099);
    assert_eq!(back, pts);
    // Narrowing the range narrows the result.
    let mid = filter_points_in_range(&chunk.times, &chunk.values, 1010, 1019);
    assert_eq!(mid.len(), 10);
    assert_eq!(mid[0], Point { time: 1010, value: 10 });
}

#[test]
fn fold_into_cache_preserves_chunks() {
    let mut st = fresh_state();
    st.add_point(ChannelId::Ecg, 10, 1);
    st.add_point(ChannelId::Ecg, 20, 2);
    st.add_point(ChannelId::Hr, 15, 70);
    st.fold_into_cache();
    // Staging is empty now: an exact-range read hits the cache.
    match st.read_range_memory(ChannelId::Ecg, 10, 20) {
        ReadOutcome::Points(pts) => {
            assert_eq!(pts, vec![Point { time: 10, value: 1 }, Point { time: 20, value: 2 }])
        },
        ReadOutcome::NeedsDisk => panic!("folded chunk must be in the cache"),
    }
    match st.read_range_memory(ChannelId::Hr, 15, 15) {
        ReadOutcome::Points(pts) => assert_eq!(pts, vec![Point { time: 15, value: 70 }]),
        ReadOutcome::NeedsDisk => panic!("folded chunk must be in the cache"),
    }
    assert_eq!(st.memory_usage_bytes(), 3 * 16);
}

#[test]
fn cache_transparency_for_repeated_reads() {
    let mut st = fresh_state();
    // A file is open, so a miss would go to disk.
    st.enable_disk_recording("session.h5".to_string());
    let data = vec![Point { time: 500, value: 5 }, Point { time: 600, value: 6 }];
    match st.read_range_memory(ChannelId::AccX, 500, 600) {
        ReadOutcome::NeedsDisk => {},
        ReadOutcome::Points(_) => panic!("nothing staged or cached yet"),
    }
    st.insert_range(ChannelId::AccX, 500, 600, data.clone());
    let first = match st.read_range_memory(ChannelId::AccX, 500, 600) {
        ReadOutcome::Points(pts) => pts,
        ReadOutcome::NeedsDisk => panic!("cached range must not go to disk"),
    };
    let second = match st.read_range_memory(ChannelId::AccX, 500, 600) {
        ReadOutcome::Points(pts) => pts,
        ReadOutcome::NeedsDisk => panic!("cached range must not go to disk"),
    };
    assert_eq!(first, data);
    assert_eq!(second, first);
}

#[test]
fn prefetch_skips_cached_neighbours() {
    let mut st = fresh_state();
    let targets = st.prefetch_targets(ChannelId::Ecg, 1000, 2000);
    assert_eq!(targets, vec![(0, 1000), (2000, 3000)]);
    st.insert_range(ChannelId::Ecg, 0, 1000, Vec::new());
    let targets2 = st.prefetch_targets(ChannelId::Ecg, 1000, 2000);
    assert_eq!(targets2, vec![(2000, 3000)]);
    st.insert_range(ChannelId::Ecg, 2000, 3000, Vec::new());
    let targets3 = st.prefetch_targets(ChannelId::Ecg, 1000, 2000);
    assert!(targets3.is_empty());
}

#[test]
fn open_and_close_recording_bookkeeping() {
    let mut st = fresh_state();
    assert_eq!(st.file_time_range(), None);
    st.insert_range(ChannelId::Ecg, 0, 10, vec![Point { time: 5, value: 1 }]);
    st.open_recording((100, 900));
    assert_eq!(st.file_time_range(), Some((100, 900)));
    // Opening clears the cache: the old range is gone.
    match st.read_range_memory(ChannelId::Ecg, 0, 10) {
        ReadOutcome::Points(pts) => assert!(pts.is_empty()),
        ReadOutcome::NeedsDisk => panic!("no file path set"),
    }
    st.close_recording();
    assert_eq!(st.file_time_range(), None);
}

#[test]
fn overall_time_range_combines_channels() {
    assert_eq!(overall_time_range(&vec![]), None);
    let ranges = vec![(100, 400), (50, 300), (200, 700)];
    assert_eq!(overall_time_range(&ranges), Some((50, 700)));
}

#[test]
fn recorder_creation_state() {
    let st = fresh_state();
    assert!(!st.is_recording());
    assert_eq!(st.total_points(), 0);
    assert_eq!(st.memory_usage_bytes(), 0);
    assert_eq!(st.start_time(), 1_000_000_000_000);
    assert_eq!(st.file_time_range(), None);
    assert!(!st.has_file());
}
