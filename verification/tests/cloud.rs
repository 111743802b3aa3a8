use viz_core::cloud::{bracket, extract_field, sensor_selected, SensorIndex, ROW_LEN};

#[test]
fn fields_split_a_row_major_buffer() {
    // two complete rows and a trailing partial one
    let flat: Vec<f64> = vec![
        0.0, 10.0, 20.0, 70.0, 0.1, 1000.0, //
        1.0, 11.0, 21.0, 71.0, 0.2, 2000.0, //
        2.0, 12.0,
    ];
    assert_eq!(extract_field(&flat, ROW_LEN, 0), vec![0.0, 1.0]);
    assert_eq!(extract_field(&flat, ROW_LEN, 1), vec![10.0, 11.0]);
    assert_eq!(extract_field(&flat, ROW_LEN, 5), vec![1000.0, 2000.0]);
    let empty: Vec<f64> = Vec::new();
    assert!(extract_field(&empty, ROW_LEN, 3).is_empty());
}

#[test]
fn index_lists_each_sensors_rows_in_row_order() {
    let index = SensorIndex::new(vec![2, 0, 2, 1, 0, 2], 4);
    assert_eq!(index.len(), 6);
    assert_eq!(index.sensor_count(), 4);
    assert_eq!(index.rows(0), &vec![1, 4]);
    assert_eq!(index.rows(1), &vec![3]);
    assert_eq!(index.rows(2), &vec![0, 2, 5]);
    assert!(index.rows(3).is_empty());
}

#[test]
fn empty_cloud_has_empty_sensor_lists() {
    let index = SensorIndex::new(Vec::new(), 3);
    assert_eq!(index.len(), 0);
    assert_eq!(index.sensor_count(), 3);
    for s in 0..3 {
        assert!(index.rows(s).is_empty());
    }
}

#[test]
fn mask_bits_select_sensors() {
    assert!(sensor_selected(0b101, 0));
    assert!(!sensor_selected(0b101, 1));
    assert!(sensor_selected(0b101, 2));
    assert!(sensor_selected(u32::MAX, 31));
    assert!(!sensor_selected(0, 31));
}

#[test]
fn selected_rows_keeps_row_order() {
    let index = SensorIndex::new(vec![2, 0, 2, 1, 0, 2], 4);
    assert_eq!(index.selected_rows(0b001), vec![1, 4]);
    assert_eq!(index.selected_rows(0b101), vec![0, 1, 2, 4, 5]);
    assert_eq!(index.selected_rows(0b1000), Vec::<u32>::new());
    assert_eq!(index.selected_rows(u32::MAX), vec![0, 1, 2, 3, 4, 5]);
}

#[test]
fn active_sensors_skip_empty_and_unselected() {
    let index = SensorIndex::new(vec![2, 0, 2, 0], 4);
    assert_eq!(index.active_sensors(u32::MAX), vec![0, 2]);
    assert_eq!(index.active_sensors(0b0110), vec![2]);
    assert_eq!(index.active_sensors(0b1010), Vec::<u32>::new());
}

#[test]
fn bracket_clamps_to_the_first_and_last_reading() {
    let rows = vec![3, 7, 9];
    assert_eq!(bracket(&rows, 0), (3, 3));
    assert_eq!(bracket(&rows, 3), (9, 9));
}

#[test]
fn bracket_picks_adjacent_readings_inside_the_series() {
    let rows = vec![3, 7, 9];
    assert_eq!(bracket(&rows, 1), (3, 7));
    assert_eq!(bracket(&rows, 2), (7, 9));
    let single = vec![4];
    assert_eq!(bracket(&single, 0), (4, 4));
    assert_eq!(bracket(&single, 1), (4, 4));
}

#[test]
fn sensor_of_reads_back_each_rows_sensor() {
    let index = SensorIndex::new(vec![2, 0, 2, 1], 3);
    assert_eq!(index.sensor_of(0), 2);
    assert_eq!(index.sensor_of(1), 0);
    assert_eq!(index.sensor_of(3), 1);
}

#[test]
fn fits_mask_only_when_every_rows_sensor_is_below_32() {
    assert!(SensorIndex::new(vec![0, 31, 5], 32).fits_mask());
    // sensors 32 and up exist but have no rows
    assert!(SensorIndex::new(vec![0, 31, 5], 40).fits_mask());
    assert!(!SensorIndex::new(vec![0, 32, 5], 40).fits_mask());
    assert!(!SensorIndex::new(vec![39], 40).fits_mask());
    assert!(SensorIndex::new(Vec::new(), 100).fits_mask());
}
