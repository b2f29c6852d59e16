use matchmaker::collections::HiddenColumns;
use matchmaker::config::ResultsConfig;
use matchmaker::results::ResultsUI;

#[test]
fn test_get_col_by_index() {
    let config = ResultsConfig::default();
    let mut results = ResultsUI::new(config);
    let mut hc = HiddenColumns::new_with_size(4);
    hc.set(1); // hide column 1
    results.config.hidden_columns = hc;
    // widths: column 0 and 2 displayed, column 3 not (width 0)
    results.width_limits = vec![10, 0, 20, 0];

    assert_eq!(results.get_col_by_display_index(0), Some(0));
    assert_eq!(results.get_col_by_display_index(1), Some(2));
    assert_eq!(results.get_col_by_display_index(2), None); // out of bounds
    assert_eq!(results.get_col_by_display_index(3), None); // out of bounds

    // Uninitialized widths -> None.
    results.width_limits = Vec::new();
    assert_eq!(results.get_col_by_display_index(0), None);
}

#[test]
fn test_shrink_idx() {
    let config = ResultsConfig::default();
    let mut results = ResultsUI::new(config);
    let mut hc = HiddenColumns::new_with_size(4);
    hc.set(1);
    results.config.hidden_columns = hc;

    assert_eq!(results.shrink_idx(0), Some(0));
    assert_eq!(results.shrink_idx(1), None);
    assert_eq!(results.shrink_idx(2), Some(1));
    assert_eq!(results.shrink_idx(3), Some(2));
}

#[test]
fn test_single_column_preferred_width_is_median() {
    let config = ResultsConfig::default();
    let mut results = ResultsUI::new(config);
    results.width = 100;
    results.config.hidden_columns = HiddenColumns::new_with_size(1);
    results.column_name_widths = vec![0];

    // 3 rows for 1 visible column: widths 10, 50, 20
    results.row_cache[0] = vec![
        (0, vec![], vec![10]),
        (1, vec![], vec![50]),
        (2, vec![], vec![20]),
    ];

    let updated = results.update_preferred_widths();
    assert!(updated);
    // For single column, preferred_width is max width (50)
    assert_eq!(results.preferred_widths, vec![50]);
}

#[test]
fn hidden_test_try_apply_max_widths() {
    let config = ResultsConfig::default();

    let mut results = ResultsUI::new(config);
    results.width = 100;
    results.config.hidden_columns = HiddenColumns::new_with_size(2);
    results.column_name_widths = vec![0, 0];
    results.row_cache[0] = vec![(0, vec![], vec![12, 20]), (1, vec![], vec![15, 10])];

    // Max widths: col 0 = 15, col 1 = 20. Sum = 35 <= available_width (97).
    let applied = results.try_apply_max_widths_into_width_buffer();
    assert_eq!(applied, Some(true));
    assert_eq!(results.preferred_widths[0], 15);
    assert_eq!(results.preferred_widths[1], 20);
}

#[test]
fn test_get_dragged_column_gutter() {
    let mut config = ResultsConfig::default();
    config.column_spacing.0 = 2;

    let mut results = ResultsUI::new(config);
    results.width_limits = vec![10, 20, 30];

    // Indentation = 2
    // Column 0 ends at 12 -> Gutter 0 spans [12, 13]
    // Column 1 ends at 34 -> Gutter 1 spans [34, 35]
    assert_eq!(results.get_gutter_col_idx(11), None);
    assert_eq!(results.get_gutter_col_idx(12), Some(0));
    assert_eq!(results.get_gutter_col_idx(13), Some(0));
    assert_eq!(results.get_gutter_col_idx(14), None);
    assert_eq!(results.get_gutter_col_idx(34), Some(1));
}

#[test]
fn test_overrides_not_expanded() {
    let mut config = ResultsConfig::default();
    config.width_overrides = vec![10, 0, 5]; // Column 0 override 10, Column 2 override 5
    config.min_width = 2;

    let mut results = ResultsUI::new(config);
    results.width = 100;
    results.preferred_widths = vec![8, 12, 6];
    results.row_cache[0] = vec![(0, vec![], vec![8, 12, 6])];

    results.update_width_limits();

    // The overridden columns should NOT expand in the final step.
    // Column 0 = 10
    // Column 1 = 12 (expanded to max)
    // Column 2 = 5
    assert_eq!(results.width_limits[0], 10);
    assert_eq!(results.width_limits[1], 12);
    assert_eq!(results.width_limits[2], 5);
}

#[test]
fn widths_test_try_apply_max_widths() {
    let config = ResultsConfig::default();
    let mut results = ResultsUI::new(config);
    results.width = 100;
    results.config.hidden_columns = HiddenColumns::new_with_size(2);
    results.column_name_widths = vec![0, 0];
    results.row_cache[0] = vec![(0, vec![], vec![12, 20]), (1, vec![], vec![15, 10])];

    let applied = results.try_apply_max_widths_into_width_buffer();
    assert_eq!(applied, Some(true));
    assert_eq!(results.preferred_widths, vec![15, 20]);
    // try_apply itself preserves row_cache
    assert!(!results.row_cache[0].is_empty());

    // When width_limits changes from [] to [15, 20], update_width_limits clears row_cache
    results.update_width_limits();
    assert_eq!(results.width_limits, vec![15, 20]);
    assert!(results.row_cache[0].is_empty());

    // When width_limits does not change on subsequent update, row_cache is preserved
    results.row_cache[0] = vec![(0, vec![], vec![15, 20])];
    results.update_width_limits();
    assert!(!results.row_cache[0].is_empty());
}

#[test]
fn sharing_out_gives_preferred_widths_that_fit() {
    let config = ResultsConfig::default();
    let mut results = ResultsUI::new(config);
    results.width = 40;
    results.config.hidden_columns = HiddenColumns::new_with_size(3);
    results.column_name_widths = vec![0, 0, 0];
    results.preferred_widths = vec![5, 6, 7];
    results.row_cache[0] = vec![(0, vec![], vec![5, 6, 7])];

    results.update_width_limits();
    // Indentation 2 leaves 38; every preferred width fits.
    assert_eq!(results.width_limits, vec![5, 6, 7]);
    // The first drawn width takes the indentation.
    assert_eq!(results.widths, vec![7, 6, 7]);
}

#[test]
fn sharing_out_splits_evenly_when_preferred_widths_are_too_wide() {
    let config = ResultsConfig::default();
    let mut results = ResultsUI::new(config);
    results.width = 22;
    results.config.hidden_columns = HiddenColumns::new_with_size(2);
    results.column_name_widths = vec![0, 0];
    results.preferred_widths = vec![30, 40];
    results.row_cache[0] = vec![(0, vec![], vec![30, 40])];

    results.update_width_limits();
    // 22 less the indentation (2) and the spacing (1) leaves 19, split
    // evenly with the remainder to the last column.
    assert_eq!(results.width_limits, vec![9, 10]);
    let sum: u16 = results.width_limits.iter().sum();
    assert!(sum <= 19);
}

#[test]
fn sharing_out_drops_overrides_that_do_not_fit() {
    let mut config = ResultsConfig::default();
    config.width_overrides = vec![15, 15];
    let mut results = ResultsUI::new(config);
    results.width = 22;
    results.config.hidden_columns = HiddenColumns::new_with_size(2);
    results.column_name_widths = vec![0, 0];
    results.preferred_widths = vec![4, 4];
    results.row_cache[0] = vec![(0, vec![], vec![4, 4])];

    results.update_width_limits();
    // 15 + 15 exceed 19: the last override is dropped, the first kept.
    assert_eq!(results.config.width_overrides, vec![15, 0]);
    assert_eq!(results.width_limits, vec![15, 4]);
}

#[test]
fn stacked_columns_take_the_whole_width() {
    let mut config = ResultsConfig::default();
    config.stacked_columns = true;
    let mut results = ResultsUI::new(config);
    results.width = 30;
    let mut hc = HiddenColumns::new_with_size(3);
    hc.set(1);
    results.config.hidden_columns = hc;

    results.update_width_limits();
    assert_eq!(results.width_limits, vec![28, 0, 28]);
    assert_eq!(results.widths, vec![30]);
}

#[test]
fn preferred_widths_keep_old_ones_below_threshold() {
    let mut config = ResultsConfig::default();
    config.resize_col_thresholds = [5, 5];
    let mut results = ResultsUI::new(config);
    results.width = 10;
    results.config.hidden_columns = HiddenColumns::new_with_size(2);
    results.column_name_widths = vec![0, 0];
    // Old preferred widths sum above the width, so thresholds apply.
    results.preferred_widths = vec![8, 8];
    results.row_cache[0] = vec![(0, vec![], vec![10, 7])];

    let changed = results.update_preferred_widths();
    // 8 -> 10 grows by 2 (< 5) and 8 -> 7 shrinks by 1 (< 5): nothing moves.
    assert!(!changed);
    assert_eq!(results.preferred_widths, vec![8, 8]);
    assert!(results.widths_buffer.is_empty());
}

#[test]
fn median_is_below_a_lower_max() {
    let config = ResultsConfig::default();
    let mut results = ResultsUI::new(config);
    results.width = 100;
    results.config.hidden_columns = HiddenColumns::new_with_size(2);
    results.column_name_widths = vec![0, 0];
    results.row_cache[0] = vec![(0, vec![], vec![3, 0]), (1, vec![], vec![9, 0])];

    assert!(results.update_preferred_widths());
    // The empty column stays 0; the other is raised to its widest content.
    assert_eq!(results.preferred_widths, vec![9, 0]);
    assert_eq!(results.max_widths, vec![9, 0]);
}

#[test]
fn resize_col_widens_and_refuses_to_go_below_least_width() {
    let mut config = ResultsConfig::default();
    config.min_width = 3;
    config.width_overrides = vec![0, 0, 0];
    let mut results = ResultsUI::new(config);
    results.config.hidden_columns = HiddenColumns::new_with_size(3);
    results.width_limits = vec![5, 6, 7];

    results.resize_col(2, 1);
    assert_eq!(results.config.width_overrides, vec![0, 8, 0]);
    assert!(results.width_limits.is_empty());

    // 5 - 4 falls below the least width 3: nothing happens.
    results.width_limits = vec![5, 8, 7];
    results.resize_col(-4, 0);
    assert_eq!(results.config.width_overrides, vec![0, 8, 0]);
    assert_eq!(results.width_limits, vec![5, 8, 7]);

    results.resize_col(-2, 2);
    assert_eq!(results.config.width_overrides, vec![0, 8, 5]);
    assert!(results.width_limits.is_empty());
}

#[test]
fn init_tracks_one_column_per_name() {
    let mut results = ResultsUI::new(ResultsConfig::default());
    results.init(&vec!["name".to_string(), "größe".to_string()]);
    assert_eq!(results.config.hidden_columns.mask_len(), 2);
    assert_eq!(results.config.hidden_columns.visible_count(), 2);
    // Widths of the names in bytes.
    assert_eq!(results.column_name_widths, vec![4, 7]);
}

#[test]
fn set_hidden_columns_hides_each_in_turn() {
    let mut results = ResultsUI::new(ResultsConfig::default());
    results.config.hidden_columns = HiddenColumns::new_with_size(4);
    results.set_hidden_columns(vec![2, 0, 9]);
    let hc = results.hidden_cols();
    assert!(hc.contains(0));
    assert!(hc.contains(2));
    assert!(!hc.contains(1));
    assert_eq!(hc.visible_count(), 2);
}

#[test]
fn table_width_sums_widths_spacing_and_border() {
    let mut results = ResultsUI::new(ResultsConfig::default());
    results.widths = vec![7, 6, 7];
    let border = results.config.border.width();
    // Spacing 1 after each drawn column but the last.
    assert_eq!(results.table_width(), border + 20 + 2);

    results.config.stacked_columns = true;
    results.width = 50;
    assert_eq!(results.table_width(), border + 50);
}
