use tig_innovator::optigrid::{
    select_sub_policy, v1_forecast_window, v2_forecast_window, v3_forecast_window, SubPolicy,
};

#[test]
fn ensemble_dispatch_by_battery_count() {
    assert_eq!(select_sub_policy(0), SubPolicy::V3);
    assert_eq!(select_sub_policy(10), SubPolicy::V3);
    assert_eq!(select_sub_policy(11), SubPolicy::V2);
    assert_eq!(select_sub_policy(40), SubPolicy::V2);
    assert_eq!(select_sub_policy(41), SubPolicy::V1);
    assert_eq!(select_sub_policy(100), SubPolicy::V1);
}

#[test]
fn mean_window_is_cut_by_the_horizon_and_the_day() {
    assert_eq!(v1_forecast_window(0, 96), (1, 16));
    assert_eq!(v1_forecast_window(90, 96), (91, 96));
    assert_eq!(v1_forecast_window(95, 96), (96, 96));
}

#[test]
fn round_trip_window_needs_four_steps() {
    assert_eq!(v2_forecast_window(0, 96), Some((1, 33)));
    assert_eq!(v2_forecast_window(80, 96), Some((81, 96)));
    assert_eq!(v2_forecast_window(91, 96), Some((92, 96)));
    assert_eq!(v2_forecast_window(92, 96), None);
    assert_eq!(v2_forecast_window(200, 96), None);
}

#[test]
fn best_window_is_empty_at_the_end() {
    assert_eq!(v3_forecast_window(0, 96), Some((1, 25)));
    assert_eq!(v3_forecast_window(94, 96), Some((95, 96)));
    assert_eq!(v3_forecast_window(95, 96), None);
}
