use zen_signal::channels::{Channels, MeasurementSample};
use zen_signal::config::Config;
use zen_signal::device::BluetoothDevice;
use zen_signal::events::{ConnectionCommand, ConnectionState, Message, SensorUpdate};
use zen_signal::error::{ConnectionError, RecorderError, ScanError};
use zen_signal::timeseries::{min_max_time, min_max_value, rmssd, Point, TimeSeries, TimeUnit};
use zen_signal::visualization::{
    add_end_boundary_point, add_start_boundary_point, display_time_from, interpolate_between_points,
    interpolate_point, range_from_time_interpolated, sort_points_by_time, ChartWindow,
};

const S: u64 = 1_000_000_000;

fn series_with(points: &[(u64, i32)]) -> TimeSeries {
    let mut ts = TimeSeries::new(130);
    for &(t, v) in points {
        ts.add_point(t, v);
    }
    ts
}

#[test]
fn test_default_config() {
    let config = Config::default();
    assert_eq!(config.enable_autoconnect, false);
    assert_eq!(config.smooth_data_streaming, true);
}

#[test]
fn test_default_config_values() {
    let config = Config::default();
    assert_eq!(config.enable_autoconnect, false);
    assert_eq!(config.smooth_data_streaming, true);
}

#[test]
fn test_connection_error_display() {
    let err = ConnectionError::NoAdapter;
    assert!(err.message().contains("Bluetooth"));
}

#[test]
fn scan_and_recorder_error_messages() {
    assert!(ScanError::NoAdapters.message().contains("adapters"));
    assert!(ScanError::ManagerInit(String::new()).message().contains("initialize"));
    assert!(ScanError::ScanFailed(String::new()).message().contains("Scan"));
    assert!(RecorderError::AlreadyRecording.message().contains("already in progress"));
    assert!(ConnectionError::Interrupted.message().contains("interrupted"));
}

#[test]
fn test_channels_creation() {
    let channels = Channels::new();
    assert_eq!(channels.ecg.len(), 0);
    assert_eq!(channels.hr.len(), 0);
    assert_eq!(channels.rr.len(), 0);
}

#[test]
fn test_set_sample_rates() {
    let mut channels = Channels::new();

    channels.set_ecg_sample_rate(256);
    assert_eq!(channels.ecg.sample_rate(), 256);

    channels.set_acc_sample_rate(100);
    assert_eq!(channels.acc_x.sample_rate(), 100);
    assert_eq!(channels.acc_y.sample_rate(), 100);
    assert_eq!(channels.acc_z.sample_rate(), 100);
}

#[test]
fn test_calculate_start_time_first_batch() {
    let now = 10_000_000_000;
    let sample_count = 5;
    let timestep = 1_000_000;

    let start = Channels::calculate_start_time(None, now, sample_count, timestep);

    assert_eq!(start, now - (sample_count - 1) * timestep);
}

#[test]
fn test_calculate_start_time_continuation() {
    let last_time = 5_000_000_000;
    let now = 10_000_000_000;
    let _sample_count = 5;
    let timestep = 1_000_000;

    let start = Channels::calculate_start_time(Some(last_time), now, 5, timestep);

    assert_eq!(start, last_time + timestep);
}

#[test]
fn calculate_start_time_empty_batch() {
    let now = 42;
    assert_eq!(Channels::calculate_start_time(None, now, 0, 1_000), now);
}

#[test]
fn test_interpolate_point() {
    let p1 = Point { time: 1000, value: 100 };
    let p2 = Point { time: 3000, value: 300 };
    let target_time = 2000;

    let interpolated = interpolate_point(&p1, &p2, target_time);

    assert_eq!(interpolated.time, 2000);
    assert_eq!(interpolated.value, 200);
}

#[test]
fn test_interpolate_between_points() {
    let p1 = Point { time: 1000, value: 100 };
    let p2 = Point { time: 5000, value: 500 };
    let target_interval = 1000;

    let interpolated = interpolate_between_points(&p1, &p2, target_interval, 0, 6000);

    assert_eq!(interpolated.len(), 4);
}

#[test]
fn test_add_start_boundary_point() {
    let points = vec![Point { time: 500, value: 50 }, Point { time: 2000, value: 200 }];
    let mut result = Vec::new();

    add_start_boundary_point(&mut result, &points, 1000);

    assert_eq!(result.len(), 1);
    assert_eq!(result[0].time, 1000);
    assert_eq!(result[0].value, 100);
}

#[test]
fn end_boundary_interpolates_between_straddling_pair() {
    let points = vec![Point { time: 1000, value: 100 }, Point { time: 3000, value: 300 }];
    let mut result = Vec::new();
    add_end_boundary_point(&mut result, &points, 2000);
    assert_eq!(result, vec![Point { time: 2000, value: 200 }]);
}

#[test]
fn end_boundary_extrapolates_within_three_gaps() {
    // Last pair (1000,100)..(2000,200): gap 1000. End at 3000 is one gap out.
    let points = vec![Point { time: 1000, value: 100 }, Point { time: 2000, value: 200 }];
    let mut result = Vec::new();
    add_end_boundary_point(&mut result, &points, 3000);
    assert_eq!(result, vec![Point { time: 3000, value: 300 }]);
}

#[test]
fn end_boundary_refuses_stale_extrapolation() {
    // End at 6000 is four gaps beyond the last point: no projection.
    let points = vec![Point { time: 1000, value: 100 }, Point { time: 2000, value: 200 }];
    let mut result = Vec::new();
    add_end_boundary_point(&mut result, &points, 6000);
    assert!(result.is_empty());
}

#[test]
fn windowing_exactness() {
    // Points at 1..=5 seconds; the window [2s, 4s] keeps exactly 2, 3, 4.
    let ts = series_with(&[(1 * S, 1), (2 * S, 2), (3 * S, 3), (4 * S, 4), (5 * S, 5)]);
    let got = ts.range_from_time(4 * S, 2 * S);
    let times: Vec<u64> = got.iter().map(|p| p.time).collect();
    assert_eq!(times, vec![2 * S, 3 * S, 4 * S]);
    assert_eq!(got.len(), 3);
}

#[test]
fn monotonic_append_is_observed() {
    let ts = series_with(&[(10, 1), (20, 2), (20, 3), (30, 4)]);
    let last = ts.last_points(3);
    assert_eq!(last, vec![
        Point { time: 20, value: 2 },
        Point { time: 20, value: 3 },
        Point { time: 30, value: 4 },
    ]);
    let all = ts.range_from_time(30, 30);
    assert_eq!(all.len(), 4);
    assert_eq!(all[0], Point { time: 10, value: 1 });
    assert_eq!(all[3], Point { time: 30, value: 4 });
}

#[test]
fn forward_fill_synthesizes_window_start() {
    // First in-window point is after the window start; the point before
    // the window carries its value 7 to the exact start.
    let ts = series_with(&[(1 * S, 7), (35 * S, 9)]);
    let got = ts.range_from_time_with_fill(40 * S, 10 * S);
    assert_eq!(got[0], Point { time: 30 * S, value: 7 });
    assert_eq!(got[1], Point { time: 35 * S, value: 9 });
    assert_eq!(got.len(), 2);
}

#[test]
fn forward_fill_without_prior_data() {
    let ts = series_with(&[(35 * S, 9)]);
    let got = ts.range_from_time_with_fill(40 * S, 10 * S);
    assert_eq!(got, vec![Point { time: 35 * S, value: 9 }]);
}

#[test]
fn range_queries_on_empty_series() {
    let ts = TimeSeries::new(130);
    assert!(ts.range_from_time(100, 50).is_empty());
    assert!(ts.range_from_time_with_fill(100, 50).is_empty());
    assert!(ts.last_duration(100).is_empty());
    assert!(ts.last_points(3).is_empty());
    assert_eq!(ts.display_time_range(100), (0, 100));
    assert!(ts.is_empty());
}

#[test]
fn last_duration_uses_latest_timestamp() {
    let ts = series_with(&[(10 * S, 1), (20 * S, 2), (30 * S, 3)]);
    let got = ts.last_duration(10 * S);
    assert_eq!(got.len(), 2);
    assert_eq!(got[0].time, 20 * S);
    assert_eq!(ts.display_time_range(10 * S), (20 * S, 30 * S));
}

#[test]
fn gap_accounting() {
    let mut ts = TimeSeries::new(100); // expected interval 10ms
    ts.add_point(1_000_000_000, 1);
    // 1.5x the expected 10_000_000ns interval is the threshold.
    assert!(!ts.has_gap(1_000_000_000 + 15_000_000));
    assert!(ts.has_gap(1_000_000_000 + 15_000_001));
    assert_eq!(ts.missing_samples(1_000_000_000 + 45_000_000), 3);
    assert_eq!(ts.missing_samples(1_000_000_000 + 5_000_000), 0);
    let empty = TimeSeries::new(100);
    assert!(!empty.has_gap(5));
    assert_eq!(empty.missing_samples(5), 0);
}

#[test]
fn min_max_helpers() {
    let pts = vec![
        Point { time: 5, value: -3 },
        Point { time: 2, value: 10 },
        Point { time: 9, value: 4 },
    ];
    assert_eq!(min_max_time(&pts), Some((2, 9)));
    assert_eq!(min_max_value(&pts), Some((-3, 10)));
    assert_eq!(min_max_time(&[]), None);
    assert_eq!(min_max_value(&[]), None);
}

#[test]
fn rmssd_of_beat_intervals() {
    // Intervals 800, 820, 810, 830: diffs 20, -10, 20; mean square 300.
    let pts: Vec<Point> = [800, 820, 810, 830]
        .iter()
        .enumerate()
        .map(|(i, &v)| Point { time: i as u64, value: v })
        .collect();
    let r = rmssd(&pts);
    assert_eq!(r, 17);
    let exact = (300.0f64).sqrt();
    assert!((exact - 17.32).abs() < 0.01);
    assert_eq!(exact as u64, r);
}

#[test]
fn interpolated_range_midpoints() {
    // Two points a second apart, sampled at 250ms steps across the window.
    let ts = series_with(&[(1 * S, 0), (2 * S, 1000)]);
    let got = range_from_time_interpolated(&ts, 2 * S, 1 * S, 250_000_000, false);
    assert!(got.windows(2).all(|w| w[0].time <= w[1].time));
    assert!(got.contains(&Point { time: 1_250_000_000, value: 250 }));
    assert!(got.contains(&Point { time: 1_500_000_000, value: 500 }));
    assert!(got.contains(&Point { time: 1_750_000_000, value: 750 }));
}

#[test]
fn interpolated_range_falls_back_to_fill() {
    let ts = series_with(&[(35 * S, 9)]);
    let via_interp = ts.range_from_time_interpolated(40 * S, 10 * S, 100_000_000, true);
    let via_fill = ts.range_from_time_with_fill(40 * S, 10 * S);
    assert_eq!(via_interp, via_fill);
}

#[test]
fn interpolated_range_interpolates_end_boundary() {
    let ts = series_with(&[(1 * S, 100), (3 * S, 300)]);
    let got = range_from_time_interpolated(&ts, 2 * S, 1 * S, 10 * S, true);
    assert!(got.contains(&Point { time: 2 * S, value: 200 }));
    assert_eq!(got.last().unwrap().time, 2 * S);
}

#[test]
fn sorting_points_by_time_is_stable_rearrangement() {
    let mut pts = vec![
        Point { time: 30, value: 3 },
        Point { time: 10, value: 1 },
        Point { time: 20, value: 2 },
        Point { time: 10, value: 4 },
    ];
    sort_points_by_time(&mut pts);
    assert_eq!(pts.len(), 4);
    assert!(pts.windows(2).all(|w| w[0].time <= w[1].time));
    assert!(pts.contains(&Point { time: 10, value: 1 }));
    assert!(pts.contains(&Point { time: 10, value: 4 }));
    assert_eq!(pts[3], Point { time: 30, value: 3 });
}

#[test]
fn display_time_helpers() {
    assert_eq!(display_time_from(5 * S, false), 5 * S);
    assert_eq!(display_time_from(5 * S, true), 5 * S - 1_500_000_000);
    assert_eq!(display_time_from(1, true), 0);
    assert_eq!(TimeUnit::Nanoseconds.nanos_per_unit(), 1);
    assert_eq!(TimeUnit::Seconds.nanos_per_unit(), S);
    assert_eq!(ChartWindow::TenSeconds.as_nanos(), 10 * S);
    assert_eq!(ChartWindow::ThirtySeconds.as_nanos(), 30 * S);
    assert_eq!(ChartWindow::OneMinute.as_nanos(), 60 * S);
    assert_eq!(ChartWindow::TwoMinutes.as_nanos(), 120 * S);
}

#[test]
fn measurement_batch_continues_from_last_timestamp() {
    let mut channels = Channels::new();
    channels.set_ecg_sample_rate(100); // 10ms steps
    channels.set_acc_sample_rate(200); // 5ms steps
    let now = 100 * S;
    let batch = vec![
        MeasurementSample::Ecg(1),
        MeasurementSample::Acc(10, 20, 30),
        MeasurementSample::Ecg(2),
        MeasurementSample::Acc(11, 21, 31),
    ];
    channels.handle_measurement_data(now, &batch);
    // First batch: each kind spread backward so its last sample lands at now.
    assert_eq!(channels.ecg.len(), 2);
    assert_eq!(channels.acc_x.len(), 2);
    let e = channels.ecg.last_points(2);
    assert_eq!(e[0].time, now - 10_000_000);
    assert_eq!(e[1].time, now);
    assert_eq!((e[0].value, e[1].value), (1, 2));
    let ax = channels.acc_x.last_points(2);
    assert_eq!(ax[0].time, now - 5_000_000);
    assert_eq!(ax[1].time, now);
    // Second batch continues one interval past the last timestamp.
    let batch2 = vec![MeasurementSample::Ecg(3)];
    channels.handle_measurement_data(now + S, &batch2);
    let e2 = channels.ecg.last_points(1);
    assert_eq!(e2[0].time, now + 10_000_000);
    assert_eq!(e2[0].value, 3);
    // Accelerometer axes stay aligned.
    let ay = channels.acc_y.last_points(2);
    let az = channels.acc_z.last_points(2);
    assert_eq!((ay[1].value, az[1].value), (21, 31));
    assert_eq!(ay[1].time, ax[1].time);
}

#[test]
fn heart_rate_update_spreads_beat_intervals() {
    let mut channels = Channels::new();
    let t1 = 100 * S;
    channels.handle_heart_rate(t1, 60, &vec![1000]);
    assert_eq!(channels.hr.len(), 1);
    let hr = channels.hr.last_points(1);
    assert_eq!((hr[0].time, hr[0].value), (t1, 60));
    assert_eq!(channels.rr.len(), 1);
    // One interval with no prior data lands at now.
    let rr = channels.rr.last_points(1);
    assert_eq!((rr[0].time, rr[0].value), (t1, 1000));
    // Next update spreads two intervals evenly over the 2s since t1.
    let t2 = t1 + 2 * S;
    channels.handle_heart_rate(t2, 61, &vec![990, 1010]);
    let rr2 = channels.rr.last_points(2);
    assert_eq!(rr2[0].time, t2 - S);
    assert_eq!(rr2[1].time, t2);
    assert_eq!((rr2[0].value, rr2[1].value), (990, 1010));
    // Three intervals in the window now: one variability sample appears.
    assert_eq!(channels.hrv.len(), 1);
    let hrv = channels.hrv.last_points(1);
    assert_eq!(hrv[0].time, t2);
    // diffs -10, 20: mean square 250, floor sqrt 15.
    assert_eq!(hrv[0].value, 15);
}

#[test]
fn heart_rate_update_repeats_missing_interval() {
    let mut channels = Channels::new();
    let t1 = 50 * S;
    channels.handle_heart_rate(t1, 58, &vec![980]);
    let t2 = t1 + S;
    channels.handle_heart_rate(t2, 59, &vec![]);
    assert_eq!(channels.rr.len(), 2);
    let rr = channels.rr.last_points(1);
    assert_eq!((rr[0].time, rr[0].value), (t2, 980));
    // No intervals arrived, so no new variability sample.
    assert_eq!(channels.hrv.len(), 0);
}

#[test]
fn connection_error_variants() {
    let e = ConnectionError::RuntimeCreation("boom".to_string());
    assert!(e.message().contains("runtime"));
    let e = ConnectionError::DeviceConnection {
        device_id: "1234".to_string(),
        reason: "timeout".to_string(),
    };
    assert!(e.message().contains("connect"));
}

#[test]
fn last_points_caps_at_length() {
    let ts = series_with(&[(1, 1), (2, 2)]);
    assert_eq!(ts.last_points(10).len(), 2);
    assert_eq!(ts.last_points(0).len(), 0);
    assert_eq!(ts.last_point(), Some(Point { time: 2, value: 2 }));
    assert_eq!(ts.sample_rate(), 130);
}

#[test]
fn event_types_carry_plain_values() {
    let dev = BluetoothDevice::new("12345678".to_string(), "Polar H10 12345678".to_string());
    assert_eq!(dev.id, "12345678");
    assert_eq!(dev.name, "Polar H10 12345678");
    let update = SensorUpdate::HeartRate { bpm: 62, rr_intervals: vec![980, 1020] };
    match update {
        SensorUpdate::HeartRate { bpm, rr_intervals } => {
            assert_eq!(bpm, 62);
            assert_eq!(rr_intervals, vec![980, 1020]);
        }
        _ => panic!("wrong variant"),
    }
    let batch = SensorUpdate::MeasurementData(vec![MeasurementSample::Ecg(5)]);
    assert!(matches!(batch, SensorUpdate::MeasurementData(_)));
    assert_eq!(ConnectionState::Scanning, ConnectionState::Scanning);
    assert!(matches!(ConnectionCommand::Connect("id".to_string()), ConnectionCommand::Connect(_)));
    assert!(matches!(Message::Tick, Message::Tick));
}
