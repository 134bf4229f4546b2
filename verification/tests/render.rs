use pathtracer::output::{push_rgb, push_vector, Pixel};
use pathtracer::render::{order_pixels, place_pixel, prepare_jobs};
use pathtracer::scalar::Scalar;
use pathtracer::vec::Vector3;

fn s(x: f64) -> Scalar {
    Scalar::from_bits(x.to_bits())
}

fn grey(level: f64) -> Vector3 {
    Vector3::new(s(level), s(level), s(level))
}

/// What the driver renders for a job: here a colour that names the job.
fn render(i: u32, j: u32, height: u32) -> Pixel {
    place_pixel(grey((j * 1000 + i) as f64), i, j, height)
}

/// A channel of a colour sum over `samples` samples, on the scale of a byte.
fn channel(sum: Scalar, samples: u16) -> Scalar {
    let scale = 1.0 / samples as f64;
    s(255.999 * (f64::from_bits(sum.to_bits()) * scale))
}

fn encode(pixels: &Vec<Pixel>, samples: u16) -> Vec<u8> {
    let mut data = Vec::new();
    for p in pixels.iter() {
        push_rgb(channel(p.color.x, samples), channel(p.color.y, samples), channel(p.color.z, samples), &mut data);
    }
    data
}

#[test]
fn jobs_run_row_after_row() {
    assert_eq!(prepare_jobs(2, 3), vec![(0, 0), (1, 0), (2, 0), (0, 1), (1, 1), (2, 1)]);
}

#[test]
fn jobs_of_an_empty_image() {
    assert_eq!(prepare_jobs(0, 3), vec![]);
    assert_eq!(prepare_jobs(3, 0), vec![]);
    assert_eq!(prepare_jobs(0, 0), vec![]);
}

#[test]
fn jobs_of_a_single_row_and_a_single_column() {
    assert_eq!(prepare_jobs(1, 4), vec![(0, 0), (1, 0), (2, 0), (3, 0)]);
    assert_eq!(prepare_jobs(4, 1), vec![(0, 0), (0, 1), (0, 2), (0, 3)]);
}

#[test]
fn jobs_count_height_times_width() {
    let jobs = prepare_jobs(37, 53);
    assert_eq!(jobs.len(), 37 * 53);
    for (k, job) in jobs.iter().enumerate() {
        assert_eq!(*job, ((k % 53) as u32, (k / 53) as u32));
    }
    assert_eq!(jobs[5 * 53 + 7], (7, 5));
}

#[test]
fn pixel_keeps_colour_and_place() {
    let p = Pixel::new(grey(0.25), 3, 4);
    assert_eq!(p.color, grey(0.25));
    assert_eq!(p.x, 3);
    assert_eq!(p.y, 4);
}

#[test]
fn pixel_index_is_row_times_width_plus_column() {
    assert_eq!(Pixel::new(grey(0.0), 3, 4).index(10), 43);
    assert_eq!(Pixel::new(grey(0.0), 0, 0).index(10), 0);
    assert_eq!(Pixel::new(grey(0.0), 7, 0).index(10), 7);
    assert_eq!(Pixel::new(grey(0.0), 0, 1440).index(3440), 4_953_600);
    assert_eq!(Pixel::new(grey(0.0), 3439, 1440).index(3440), 4_957_039);
    assert_eq!(Pixel::new(grey(0.0), 65535, 65535).index(65536), u32::MAX);
}

#[test]
fn placed_pixel_counts_its_row_from_the_top() {
    assert_eq!(place_pixel(grey(0.5), 2, 0, 4), Pixel::new(grey(0.5), 2, 4));
    assert_eq!(place_pixel(grey(0.5), 2, 3, 4), Pixel::new(grey(0.5), 2, 1));
    assert_eq!(place_pixel(grey(0.5), 0, 4, 4), Pixel::new(grey(0.5), 0, 0));
}

#[test]
fn ordering_sorts_by_raster_index() {
    let a = Pixel::new(grey(1.0), 2, 1);
    let b = Pixel::new(grey(2.0), 0, 1);
    let c = Pixel::new(grey(3.0), 3, 0);
    let d = Pixel::new(grey(4.0), 1, 2);
    let mut data = vec![d, a, c, b];
    order_pixels(&mut data, 4);
    assert_eq!(data, vec![c, b, a, d]);
}

#[test]
fn ordering_nothing_and_one() {
    let mut data: Vec<Pixel> = vec![];
    order_pixels(&mut data, 4);
    assert_eq!(data, vec![]);
    let a = Pixel::new(grey(1.0), 2, 1);
    let mut data = vec![a];
    order_pixels(&mut data, 4);
    assert_eq!(data, vec![a]);
}

#[test]
fn ordering_keeps_results_of_one_pixel_in_their_order() {
    let first = Pixel::new(grey(1.0), 1, 1);
    let second = Pixel::new(grey(2.0), 1, 1);
    // same raster index through another row and column
    let third = Pixel::new(grey(3.0), 5, 0);
    let before = Pixel::new(grey(0.0), 0, 0);
    let after = Pixel::new(grey(9.0), 3, 3);
    let mut data = vec![after, first, second, before, third];
    order_pixels(&mut data, 4);
    assert_eq!(data, vec![before, first, second, third, after]);
    let mut data = vec![third, after, second, first, before];
    order_pixels(&mut data, 4);
    assert_eq!(data, vec![before, third, second, first, after]);
}

#[test]
fn ordering_leaves_raster_order_as_it_is() {
    let mut data: Vec<Pixel> = Vec::new();
    for k in 0..100u32 {
        data.push(Pixel::new(grey(k as f64), k % 10, k / 10 + 1));
    }
    let want = data.clone();
    order_pixels(&mut data, 10);
    assert_eq!(data, want);
}

#[test]
fn ordering_agrees_with_a_stable_sort_of_the_standard_library() {
    let mut data: Vec<Pixel> = Vec::new();
    let mut seed: u32 = 12345;
    for k in 0..5000u32 {
        seed = seed.wrapping_mul(1_664_525).wrapping_add(1_013_904_223);
        data.push(Pixel::new(grey(k as f64), (seed >> 8) % 40, (seed >> 20) % 30));
    }
    let mut want = data.clone();
    want.sort_by(|a, b| a.index(40).cmp(&b.index(40)));
    order_pixels(&mut data, 40);
    assert_eq!(data, want);
}

#[test]
fn shuffled_results_give_the_buffer_of_raster_order() {
    let (width, height) = (4u32, 4u32);
    let jobs = prepare_jobs(height, width);
    // in raster order: the top row is the highest job row
    let mut direct: Vec<Pixel> = Vec::new();
    for row in 0..height {
        for i in 0..width {
            direct.push(render(i, height - 1 - row, height));
        }
    }
    let want = encode(&direct, 1000);

    let mut produced: Vec<Pixel> = jobs.iter().map(|&(i, j)| render(i, j, height)).collect();
    order_pixels(&mut produced, width);
    assert_eq!(produced, direct);
    assert_eq!(encode(&produced, 1000), want);

    let mut seed: u32 = 7;
    for _ in 0..50 {
        let mut shuffled: Vec<Pixel> = jobs.iter().map(|&(i, j)| render(i, j, height)).collect();
        for k in (1..shuffled.len()).rev() {
            seed = seed.wrapping_mul(1_664_525).wrapping_add(1_013_904_223);
            shuffled.swap(k, (seed >> 8) as usize % (k + 1));
        }
        order_pixels(&mut shuffled, width);
        assert_eq!(shuffled, direct);
        assert_eq!(encode(&shuffled, 1000), want);
    }
}

#[test]
fn full_raster_comes_out_row_after_row_from_the_top() {
    let (width, height) = (5u32, 3u32);
    let mut produced: Vec<Pixel> = prepare_jobs(height, width).iter().rev().map(|&(i, j)| render(i, j, height)).collect();
    order_pixels(&mut produced, width);
    assert_eq!(produced.len(), 15);
    for (k, p) in produced.iter().enumerate() {
        let k = k as u32;
        assert_eq!(p.x, k % width);
        assert_eq!(p.y, k / width + 1);
        assert_eq!(*p, render(k % width, height - 1 - k / width, height));
    }
}

#[test]
fn push_rgb_appends_three_bytes_in_order() {
    let mut data = vec![9u8];
    push_rgb(s(1.0), s(2.5), s(3.999), &mut data);
    assert_eq!(data, vec![9, 1, 2, 3]);
    push_rgb(s(255.999), s(0.0), s(128.0), &mut data);
    assert_eq!(data, vec![9, 1, 2, 3, 255, 0, 128]);
}

#[test]
fn push_rgb_stops_at_the_ends_of_the_range() {
    let mut data = Vec::new();
    push_rgb(s(256.0), s(-1.0), s(f64::NAN), &mut data);
    push_rgb(s(1e300), s(-1e300), s(f64::INFINITY), &mut data);
    push_rgb(s(f64::NEG_INFINITY), s(0.999_999), s(-0.0), &mut data);
    assert_eq!(data, vec![255, 0, 0, 255, 0, 255, 0, 0, 0]);
}

#[test]
fn push_vector_appends_the_three_components() {
    let mut data = vec![7u8];
    push_vector(Vector3::new(s(12.7), s(200.0), s(255.0)), &mut data);
    assert_eq!(data, vec![7, 12, 200, 255]);
}

#[test]
fn buffer_holds_three_bytes_for_every_pixel() {
    let pixels = vec![
        Pixel::new(Vector3::new(s(100.0), s(50.0), s(0.0)), 0, 1),
        Pixel::new(Vector3::new(s(25.0), s(99.999), s(75.0)), 1, 1),
    ];
    assert_eq!(encode(&pixels, 100), vec![255, 127, 0, 63, 255, 191]);
}
