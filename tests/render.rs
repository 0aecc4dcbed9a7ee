use mandelbrot::color::{color_of_count, Color};
use mandelbrot::column::{column_from_counts, compute_column, ColumnResult, ImageSpec};
use mandelbrot::partition::{expected_count, partition, ColumnRange};
use mandelbrot::raster::OutputRaster;

fn toy_escape(x: u32, y: u32) -> u32 {
    x * 7 + y * 3 + 1
}

fn run_workers(spec: ImageSpec, threads: u32) -> Vec<ColumnResult> {
    let mut results = Vec::new();
    for range in partition(spec.width, threads) {
        for col in range.start..range.end {
            results.push(compute_column(col, spec, &toy_escape));
        }
    }
    results
}

fn raster_pixels(raster: &OutputRaster) -> Vec<Color> {
    let mut out = Vec::new();
    for x in 0..raster.width() {
        for y in 0..raster.height() {
            out.push(raster.pixel(x, y));
        }
    }
    out
}

const BLACK: Color = Color { r: 0, g: 0, b: 0 };

#[test]
fn partition_four_by_two_threads() {
    let ranges = partition(4, 2);
    assert_eq!(ranges, vec![ColumnRange { start: 0, end: 2 }, ColumnRange { start: 2, end: 4 }]);
    assert_eq!(expected_count(4, 2), 4);
}

#[test]
fn partition_drops_remainder() {
    let ranges = partition(10, 3);
    assert_eq!(
        ranges,
        vec![
            ColumnRange { start: 0, end: 3 },
            ColumnRange { start: 3, end: 6 },
            ColumnRange { start: 6, end: 9 },
        ]
    );
    assert_eq!(expected_count(10, 3), 9);
}

#[test]
fn partition_more_threads_than_columns() {
    let ranges = partition(3, 5);
    assert_eq!(ranges.len(), 5);
    for r in ranges {
        assert_eq!(r.start, 0);
        assert_eq!(r.end, 0);
    }
    assert_eq!(expected_count(3, 5), 0);
}

#[test]
fn partition_one_per_worker_and_single_worker() {
    let ranges = partition(5, 5);
    for (n, r) in ranges.iter().enumerate() {
        assert_eq!(*r, ColumnRange { start: n as u32, end: n as u32 + 1 });
    }
    assert_eq!(partition(5, 1), vec![ColumnRange { start: 0, end: 5 }]);
}

#[test]
fn color_of_count_values() {
    assert_eq!(color_of_count(1), Color { r: 8, g: 32, b: 4 });
    assert_eq!(color_of_count(1000), Color { r: 64, g: 0, b: 160 });
    assert_eq!(color_of_count(37), Color { r: 40, g: 160, b: 148 });
    assert_eq!(color_of_count(0), BLACK);
}

#[test]
fn column_from_counts_maps_each_row() {
    let col = column_from_counts(3, &vec![1, 1000, 0]);
    assert_eq!(col.column_index, 3);
    assert_eq!(col.pixels, vec![color_of_count(1), color_of_count(1000), BLACK]);
}

#[test]
fn compute_column_calls_escape_per_row() {
    let spec = ImageSpec { width: 4, height: 3 };
    let col = compute_column(2, spec, &toy_escape);
    assert_eq!(col.column_index, 2);
    assert_eq!(col.pixels, vec![color_of_count(15), color_of_count(18), color_of_count(21)]);
}

#[test]
fn compute_column_is_deterministic() {
    let spec = ImageSpec { width: 8, height: 5 };
    let a = compute_column(6, spec, &toy_escape);
    let b = compute_column(6, spec, &toy_escape);
    assert_eq!(a.column_index, b.column_index);
    assert_eq!(a.pixels, b.pixels);
}

#[test]
fn new_raster_is_black() {
    let raster = OutputRaster::new(ImageSpec { width: 3, height: 2 });
    assert_eq!(raster.width(), 3);
    assert_eq!(raster.height(), 2);
    assert!(raster_pixels(&raster).iter().all(|c| *c == BLACK));
}

#[test]
fn place_column_writes_only_its_column() {
    let mut raster = OutputRaster::new(ImageSpec { width: 3, height: 2 });
    let col = column_from_counts(1, &vec![1, 2]);
    raster.place_column(&col);
    assert_eq!(raster.pixel(1, 0), color_of_count(1));
    assert_eq!(raster.pixel(1, 1), color_of_count(2));
    assert_eq!(raster.pixel(0, 0), BLACK);
    assert_eq!(raster.pixel(2, 1), BLACK);
}

#[test]
fn place_column_twice_overwrites() {
    let mut raster = OutputRaster::new(ImageSpec { width: 2, height: 1 });
    raster.place_column(&column_from_counts(0, &vec![1]));
    raster.place_column(&column_from_counts(0, &vec![2]));
    assert_eq!(raster.pixel(0, 0), color_of_count(2));
}

#[test]
fn scenario_four_by_two_two_threads() {
    let spec = ImageSpec { width: 4, height: 2 };
    let results = run_workers(spec, 2);
    assert_eq!(results.len(), 4);
    for r in &results {
        assert_eq!(r.pixels.len(), 2);
    }
    let mut raster = OutputRaster::new(spec);
    raster.collect(&results);
    for x in 0..4 {
        for y in 0..2 {
            assert_eq!(raster.pixel(x, y), color_of_count(toy_escape(x, y)));
            assert_ne!(raster.pixel(x, y), BLACK);
        }
    }
}

#[test]
fn every_pixel_written_when_threads_divide_width() {
    let spec = ImageSpec { width: 6, height: 4 };
    let results = run_workers(spec, 3);
    assert_eq!(results.len() as u32, expected_count(6, 3));
    let mut raster = OutputRaster::new(spec);
    raster.collect(&results);
    for x in 0..6 {
        for y in 0..4 {
            assert_eq!(raster.pixel(x, y), color_of_count(toy_escape(x, y)));
        }
    }
}

#[test]
fn remainder_columns_stay_black() {
    let spec = ImageSpec { width: 5, height: 2 };
    let results = run_workers(spec, 2);
    assert_eq!(results.len(), 4);
    let mut raster = OutputRaster::new(spec);
    raster.collect(&results);
    assert_eq!(raster.pixel(3, 1), color_of_count(toy_escape(3, 1)));
    assert_eq!(raster.pixel(4, 0), BLACK);
    assert_eq!(raster.pixel(4, 1), BLACK);
}

#[test]
fn collect_is_order_independent() {
    let spec = ImageSpec { width: 4, height: 3 };
    let results = run_workers(spec, 4);
    let mut reversed = results.clone();
    reversed.reverse();
    let mut shuffled = Vec::new();
    for k in [2usize, 0, 3, 1] {
        shuffled.push(results[k].clone());
    }
    let mut a = OutputRaster::new(spec);
    a.collect(&results);
    let mut b = OutputRaster::new(spec);
    b.collect(&reversed);
    let mut c = OutputRaster::new(spec);
    c.collect(&shuffled);
    assert_eq!(raster_pixels(&a), raster_pixels(&b));
    assert_eq!(raster_pixels(&a), raster_pixels(&c));
}

#[test]
fn single_worker_matches_one_worker_per_column() {
    let spec = ImageSpec { width: 5, height: 3 };
    let per_column = run_workers(spec, 5);
    for r in &per_column {
        assert_eq!(r.pixels.len(), 3);
    }
    let single = run_workers(spec, 1);
    let mut a = OutputRaster::new(spec);
    a.collect(&per_column);
    let mut b = OutputRaster::new(spec);
    b.collect(&single);
    assert_eq!(raster_pixels(&a), raster_pixels(&b));
}
