use attractor::camera::{Camera, PixelPoint, RealPoint};
use attractor::color::{gradient, mix, Color};
use attractor::density::DensityGrid;
use attractor::image::{assemble, render};

fn camera(width: usize, height: usize, extent: i64) -> Camera {
    Camera {
        center: RealPoint { x: 0, y: 0 },
        height: extent,
        screen_size: (width, height),
    }
}

fn grid_sum(grid: &DensityGrid, cam: &Camera) -> u64 {
    let mut sum: u64 = 0;
    for y in 0..cam.screen_size.1 {
        for x in 0..cam.screen_size.0 {
            sum += grid.count_at(PixelPoint { x, y });
        }
    }
    sum
}

#[test]
fn round_trip_all_pixels() {
    let cam = camera(8, 6, 3_000_000);
    for y in 0..6 {
        for x in 0..8 {
            let p = PixelPoint { x, y };
            assert_eq!(cam.to_screen(cam.to_real(p)), Some(p));
        }
    }
}

#[test]
fn to_screen_center() {
    let cam = camera(4, 4, 2_000_000);
    let p = cam.to_screen(RealPoint { x: 0, y: 0 });
    assert_eq!(p, Some(PixelPoint { x: 2, y: 2 }));
}

#[test]
fn to_real_center() {
    let cam = camera(4, 4, 2_000_000);
    let rp = cam.to_real(PixelPoint { x: 2, y: 2 });
    assert_eq!(rp, RealPoint { x: 0, y: 0 });
}

#[test]
fn width_follows_aspect_ratio() {
    let cam = camera(4, 2, 2_000_000);
    assert_eq!(cam.width(), 4_000_000);
    let square = camera(1080, 1080, 4_400_000);
    assert_eq!(square.width(), 4_400_000);
}

#[test]
fn mix_endpoints_and_midpoint() {
    let a = Color { r: 10, g: 20, b: 30 };
    let b = Color { r: 200, g: 100, b: 0 };
    assert_eq!(mix(a, b, 0), a);
    assert_eq!(mix(a, b, 255), b);
    let black = Color { r: 0, g: 0, b: 0 };
    let white = Color {
        r: 255,
        g: 255,
        b: 255,
    };
    assert_eq!(
        mix(black, white, 128),
        Color {
            r: 128,
            g: 128,
            b: 128
        }
    );
}

#[test]
fn gradient_empty_all_black() {
    let table = gradient(vec![]);
    assert_eq!(table.len(), 256);
    for c in &table {
        assert_eq!(*c, Color { r: 0, g: 0, b: 0 });
    }
}

#[test]
fn gradient_single_stop() {
    let stop = Color { r: 5, g: 10, b: 200 };
    let table = gradient(vec![stop]);
    assert_eq!(table.len(), 256);
    for c in &table {
        assert_eq!(*c, stop);
    }
}

#[test]
fn gradient_two_stops_black_white() {
    let black = Color { r: 0, g: 0, b: 0 };
    let white = Color {
        r: 255,
        g: 255,
        b: 255,
    };
    let table = gradient(vec![black, white]);
    assert_eq!(table.len(), 256);
    assert_eq!(table[0], black);
    assert_eq!(table[255], white);
    for i in 1..256 {
        assert!(table[i - 1].r <= table[i].r);
        assert!(table[i - 1].g <= table[i].g);
        assert!(table[i - 1].b <= table[i].b);
    }
}

#[test]
fn gradient_midpoint_two_stops() {
    let black = Color { r: 0, g: 0, b: 0 };
    let white = Color {
        r: 255,
        g: 255,
        b: 255,
    };
    let table = gradient(vec![black, white]);
    assert_eq!(
        table[128],
        Color {
            r: 128,
            g: 128,
            b: 128
        }
    );
}

#[test]
fn gradient_three_stops_exact_values() {
    let table = gradient(vec![
        Color { r: 0, g: 0, b: 0 },
        Color {
            r: 100,
            g: 100,
            b: 100,
        },
        Color {
            r: 200,
            g: 200,
            b: 200,
        },
    ]);
    // index 127 still sits in the first segment: (100 * 254) / 255 == 99
    assert_eq!(table[127], Color { r: 99, g: 99, b: 99 });
    // index 128 crosses into the second segment: (100 * 254 + 200) / 255 == 100
    assert_eq!(
        table[128],
        Color {
            r: 100,
            g: 100,
            b: 100
        }
    );
    assert_eq!(
        table[255],
        Color {
            r: 200,
            g: 200,
            b: 200
        }
    );
}

#[test]
fn density_sum_counts_points_minus_discarded() {
    let cam = camera(4, 4, 2_000_000);
    let mut grid = DensityGrid::new(4, 4);
    let points = vec![
        RealPoint { x: 0, y: 0 },
        RealPoint {
            x: 100_000,
            y: -200_000,
        },
        RealPoint {
            x: -300_000,
            y: 400_000,
        },
        RealPoint { x: 10_000_000, y: 0 },
        RealPoint {
            x: 0,
            y: -10_000_000,
        },
    ];
    let discarded = grid.accumulate(&cam, &points);
    assert_eq!(discarded, 2);
    assert_eq!(grid_sum(&grid, &cam), (points.len() - discarded) as u64);
}

#[test]
fn out_of_bounds_point_is_discarded() {
    let cam = camera(4, 4, 2_000_000);
    let mut grid = DensityGrid::new(4, 4);
    let counted = grid.add_point(&cam, RealPoint { x: 10_000_000, y: 0 });
    assert!(!counted);
    assert_eq!(grid_sum(&grid, &cam), 0);
}

#[test]
fn accumulate_empty_sequence() {
    let cam = camera(4, 4, 2_000_000);
    let mut grid = DensityGrid::new(4, 4);
    let discarded = grid.accumulate(&cam, &vec![]);
    assert_eq!(discarded, 0);
    assert_eq!(grid_sum(&grid, &cam), 0);
}

#[test]
fn saturated_counts_map_to_the_same_color() {
    let cam = camera(4, 4, 2_000_000);
    let black = Color { r: 0, g: 0, b: 0 };
    let white = Color {
        r: 255,
        g: 255,
        b: 255,
    };
    let origin = RealPoint { x: 0, y: 0 };

    let mut hot = DensityGrid::new(4, 4);
    hot.accumulate(&cam, &vec![origin; 10_000]);
    let mut warm = DensityGrid::new(4, 4);
    warm.accumulate(&cam, &vec![origin; 255]);

    let table = gradient(vec![black, white]);
    let hot_img = assemble(&hot, &table);
    let warm_img = assemble(&warm, &table);

    // the origin lands on pixel (2, 2), cell 2 * 4 + 2 of the buffer
    assert_eq!(hot_img[10], warm_img[10]);
    assert_eq!(hot_img[10], white);
}

#[test]
fn render_is_deterministic() {
    let cam = camera(16, 16, 3_000_000);
    let stops = vec![
        Color { r: 0, g: 0, b: 0 },
        Color {
            r: 58,
            g: 145,
            b: 112,
        },
        Color {
            r: 236,
            g: 49,
            b: 9,
        },
    ];
    let points: Vec<RealPoint> = (0..200)
        .map(|i: i64| RealPoint {
            x: (i * 37_000) % 1_400_000 - 700_000,
            y: (i * 53_000) % 1_400_000 - 700_000,
        })
        .collect();
    let first = render(&cam, stops.clone(), &points);
    let second = render(&cam, stops.clone(), &points);
    assert_eq!(first.len(), 256);
    assert_eq!(first, second);
}

#[test]
fn render_small_frame_exact() {
    let cam = camera(2, 2, 2_000_000);
    let black = Color { r: 0, g: 0, b: 0 };
    let white = Color {
        r: 255,
        g: 255,
        b: 255,
    };
    let img = render(&cam, vec![black, white], &vec![]);
    assert_eq!(img.len(), 4);
    for c in &img {
        assert_eq!(*c, black);
    }
}
