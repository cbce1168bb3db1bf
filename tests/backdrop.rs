use vello_backdrop::backdrop;
use vello_backdrop::backdrop_main;
use vello_backdrop::select::first_compatible;
use vello_backdrop::wire::decode_tiles;
use vello_backdrop::wire::encode_config;
use vello_backdrop::wire::encode_paths;
use vello_backdrop::wire::encode_tiles;
use vello_backdrop::wire::CONFIG_SIZE;
use vello_backdrop::BackdropError;
use vello_backdrop::Config;
use vello_backdrop::CpuBinding;
use vello_backdrop::PathDesc;
use vello_backdrop::Tile;

fn path(x0: u32, y0: u32, x1: u32, y1: u32, tiles: u32) -> PathDesc {
    PathDesc { x0, y0, x1, y1, tiles }
}

fn tiles_with(deltas: &[i32]) -> Vec<Tile> {
    deltas
        .iter()
        .enumerate()
        .map(|(i, &d)| Tile { backdrop: d, segment_count_or_ix: 100 + i as u32 })
        .collect()
}

fn slots(n: u32, paths: &[PathDesc], deltas: &[i32]) -> Vec<CpuBinding> {
    vec![
        CpuBinding::Buffer(encode_config(&Config { n_draw_objects: n })),
        CpuBinding::Buffer(encode_paths(&paths.to_vec())),
        CpuBinding::BufferRW(encode_tiles(&tiles_with(deltas))),
    ]
}

fn grid_backdrops(resources: &[CpuBinding]) -> Vec<i32> {
    decode_tiles(resources[2].bytes()).iter().map(|t| t.backdrop).collect()
}

fn run(n: u32, paths: &[PathDesc], deltas: &[i32]) -> (Result<(), BackdropError>, Vec<i32>) {
    let mut resources = slots(n, paths, deltas);
    let r = backdrop(64, &mut resources);
    (r, grid_backdrops(&resources))
}

#[test]
fn two_by_two_rows_scan_independently() {
    let (r, out) = run(1, &[path(0, 0, 2, 2, 0)], &[1, 2, 3, 4]);
    assert_eq!(r, Ok(()));
    assert_eq!(out, vec![1, 3, 3, 7]);
}

#[test]
fn segment_fields_are_kept() {
    let mut resources = slots(1, &[path(0, 0, 2, 2, 0)], &[1, 2, 3, 4]);
    assert_eq!(backdrop(1, &mut resources), Ok(()));
    let tiles = decode_tiles(resources[2].bytes());
    let segs: Vec<u32> = tiles.iter().map(|t| t.segment_count_or_ix).collect();
    assert_eq!(segs, vec![100, 101, 102, 103]);
}

#[test]
fn first_column_keeps_delta_and_last_column_is_row_sum() {
    let deltas = [5, -2, 7, 1, -3, 0, 4, 4, 9, -9, 2, 2];
    let (r, out) = run(1, &[path(3, 1, 7, 4, 0)], &deltas);
    assert_eq!(r, Ok(()));
    for row in 0..3 {
        let s = row * 4;
        assert_eq!(out[s], deltas[s]);
        assert_eq!(out[s + 3], deltas[s..s + 4].iter().sum::<i32>());
    }
    assert_eq!(out, vec![5, 3, 10, 11, -3, -3, 1, 5, 9, 0, 2, 4]);
}

#[test]
fn zero_width_shape_leaves_grid_unchanged() {
    let (r, out) = run(1, &[path(2, 0, 2, 3, 0)], &[1, 2, 3]);
    assert_eq!(r, Ok(()));
    assert_eq!(out, vec![1, 2, 3]);
}

#[test]
fn zero_height_shape_leaves_grid_unchanged() {
    let (r, out) = run(1, &[path(0, 4, 3, 4, 1000)], &[1, 2, 3]);
    assert_eq!(r, Ok(()));
    assert_eq!(out, vec![1, 2, 3]);
}

#[test]
fn two_slots_fail_with_count_mismatch() {
    let mut resources = slots(1, &[path(0, 0, 2, 2, 0)], &[1, 2, 3, 4]);
    let grid = resources.pop().unwrap();
    let mut two = vec![resources[0].clone(), grid];
    let before = two[1].bytes().clone();
    assert_eq!(
        backdrop(1, &mut two),
        Err(BackdropError::BindingCountMismatch { expected: 3, found: 2 })
    );
    assert_eq!(two.len(), 2);
    assert_eq!(two[1].bytes(), &before);
}

#[test]
fn config_of_wrong_size_is_a_layout_mismatch() {
    let mut resources = slots(1, &[path(0, 0, 2, 2, 0)], &[1, 2, 3, 4]);
    resources[0] = CpuBinding::Buffer(vec![0; CONFIG_SIZE - 4]);
    assert_eq!(
        backdrop(1, &mut resources),
        Err(BackdropError::BindingLayoutMismatch { slot: 0 })
    );
    assert_eq!(grid_backdrops(&resources), vec![1, 2, 3, 4]);
}

#[test]
fn ragged_path_table_is_a_layout_mismatch() {
    let mut resources = slots(1, &[path(0, 0, 2, 2, 0)], &[1, 2, 3, 4]);
    let mut bytes = resources[1].bytes().clone();
    bytes.push(0);
    resources[1] = CpuBinding::Buffer(bytes);
    assert_eq!(
        backdrop(1, &mut resources),
        Err(BackdropError::BindingLayoutMismatch { slot: 1 })
    );
}

#[test]
fn read_only_tile_grid_is_a_layout_mismatch() {
    let mut resources = slots(1, &[path(0, 0, 2, 2, 0)], &[1, 2, 3, 4]);
    let bytes = resources[2].bytes().clone();
    resources[2] = CpuBinding::Buffer(bytes);
    assert_eq!(
        backdrop(1, &mut resources),
        Err(BackdropError::BindingLayoutMismatch { slot: 2 })
    );
    assert_eq!(grid_backdrops(&resources), vec![1, 2, 3, 4]);
}

#[test]
fn ragged_tile_grid_is_a_layout_mismatch() {
    let mut resources = slots(1, &[path(0, 0, 2, 2, 0)], &[1, 2, 3, 4]);
    let mut bytes = resources[2].bytes().clone();
    bytes.push(0);
    resources[2] = CpuBinding::BufferRW(bytes);
    assert_eq!(
        backdrop(1, &mut resources),
        Err(BackdropError::BindingLayoutMismatch { slot: 2 })
    );
}

#[test]
fn block_past_grid_end_is_out_of_range_and_untouched() {
    let paths = [path(0, 0, 2, 1, 0), path(0, 0, 2, 2, 2)];
    let (r, out) = run(2, &paths, &[1, 2, 3, 4, 5]);
    assert_eq!(r, Err(BackdropError::IndexOutOfRange { shape: 1 }));
    assert_eq!(out, vec![1, 2, 3, 4, 5]);
}

#[test]
fn missing_path_record_is_out_of_range() {
    let (r, out) = run(2, &[path(0, 0, 2, 1, 0)], &[1, 2]);
    assert_eq!(r, Err(BackdropError::IndexOutOfRange { shape: 1 }));
    assert_eq!(out, vec![1, 2]);
}

#[test]
fn inverted_bbox_is_out_of_range() {
    let (r, _) = run(1, &[path(3, 0, 1, 1, 0)], &[1, 2]);
    assert_eq!(r, Err(BackdropError::IndexOutOfRange { shape: 0 }));
}

#[test]
fn only_dispatched_shapes_are_scanned() {
    let paths = [path(0, 0, 2, 1, 0), path(0, 0, 2, 1, 2)];
    let (r, out) = run(1, &paths, &[1, 1, 1, 1]);
    assert_eq!(r, Ok(()));
    assert_eq!(out, vec![1, 2, 1, 1]);
}

#[test]
fn disjoint_shapes_do_not_touch_each_other() {
    let a = path(0, 0, 3, 1, 0);
    let b = path(5, 5, 7, 6, 3);
    let (_, both) = run(2, &[a, b], &[1, 2, 3, 10, 20]);
    let (_, only_a) = run(1, &[a], &[1, 2, 3, 10, 20]);
    let (_, only_b) = run(1, &[b], &[1, 2, 3, 10, 20]);
    assert_eq!(both, vec![1, 3, 6, 10, 30]);
    assert_eq!(&both[0..3], &only_a[0..3]);
    assert_eq!(&only_a[3..5], &[10, 20]);
    assert_eq!(&both[3..5], &only_b[3..5]);
    assert_eq!(&only_b[0..3], &[1, 2, 3]);
}

#[test]
fn shape_order_does_not_matter() {
    let a = path(0, 0, 2, 2, 0);
    let b = path(1, 1, 4, 2, 4);
    let c = path(0, 0, 1, 3, 7);
    let deltas = [1, -1, 2, 2, 3, 3, 3, 4, 5, 6, 7];
    let (_, abc) = run(3, &[a, b, c], &deltas);
    let (_, cab) = run(3, &[c, a, b], &deltas);
    let (_, bca) = run(3, &[b, c, a], &deltas);
    assert_eq!(abc, cab);
    assert_eq!(abc, bca);
    assert_eq!(abc, vec![1, 0, 2, 4, 3, 6, 9, 4, 5, 6, 7]);
}

#[test]
fn column_order_matters() {
    let (_, forward) = run(1, &[path(0, 0, 3, 1, 0)], &[1, 2, 3]);
    let (_, backward) = run(1, &[path(0, 0, 3, 1, 0)], &[3, 2, 1]);
    let mut reversed = backward.clone();
    reversed.reverse();
    assert_ne!(forward, reversed);
}

#[test]
fn sums_wrap_at_32_bits() {
    let (r, out) = run(1, &[path(0, 0, 3, 1, 0)], &[i32::MAX, 1, 1]);
    assert_eq!(r, Ok(()));
    assert_eq!(out, vec![i32::MAX, i32::MIN, i32::MIN + 1]);
}

#[test]
fn kernel_runs_on_raw_slots() {
    let config = Config { n_draw_objects: 1 };
    let paths = encode_paths(&vec![path(0, 0, 2, 2, 1)]);
    let mut tiles = encode_tiles(&tiles_with(&[9, 1, 2, 3, 4]));
    assert_eq!(backdrop_main(&config, &paths, &mut tiles), Ok(()));
    let out: Vec<i32> = decode_tiles(&tiles).iter().map(|t| t.backdrop).collect();
    assert_eq!(out, vec![9, 1, 3, 3, 7]);
}

#[test]
fn config_record_round_trips() {
    let bytes = encode_config(&Config { n_draw_objects: 0x0102_0304 });
    assert_eq!(bytes.len(), CONFIG_SIZE);
    assert_eq!(&bytes[20..24], &[4, 3, 2, 1]);
    let slot = CpuBinding::Buffer(bytes);
    assert_eq!(slot.as_config(0), Ok(Config { n_draw_objects: 0x0102_0304 }));
}

#[test]
fn tile_records_round_trip() {
    let tiles = vec![
        Tile { backdrop: -2, segment_count_or_ix: 7 },
        Tile { backdrop: i32::MIN, segment_count_or_ix: u32::MAX },
    ];
    let bytes = encode_tiles(&tiles);
    assert_eq!(&bytes[0..8], &[0xfe, 0xff, 0xff, 0xff, 7, 0, 0, 0]);
    assert_eq!(decode_tiles(&bytes), tiles);
}

#[test]
fn path_table_is_viewed_in_place() {
    let bytes = encode_paths(&vec![path(1, 2, 3, 4, 5)]);
    assert_eq!(bytes.len(), 32);
    assert_eq!(&bytes[0..20], &[1, 0, 0, 0, 2, 0, 0, 0, 3, 0, 0, 0, 4, 0, 0, 0, 5, 0, 0, 0]);
    let slot = CpuBinding::Buffer(bytes.clone());
    assert_eq!(slot.as_path_table(1), Ok(&bytes));
}

#[test]
fn first_compatible_picks_lowest_index() {
    assert_eq!(first_compatible(&vec![false, true, true]), Some(1));
    assert_eq!(first_compatible(&vec![true]), Some(0));
    assert_eq!(first_compatible(&vec![false, false]), None);
    assert_eq!(first_compatible(&vec![]), None);
}
