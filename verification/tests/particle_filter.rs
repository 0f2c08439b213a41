use easy_cap::filters::FrameError;
use easy_cap::filters::ParamsForParticle;
use easy_cap::filters::Particle;
use easy_cap::filters::Rgb;
use easy_cap::filters::grayscale;
use easy_cap::filters::normalize_weights;
use easy_cap::filters::particle;
use easy_cap::filters::predict_and_score;
use easy_cap::filters::reverse_rgb;
use easy_cap::filters::sample_frame;
use easy_cap::filters::select_survivors;
use easy_cap::filters::sort_by_like;
use easy_cap::filters::spawn_children;

fn solid_frame(w: usize, h: usize, c: Rgb) -> Vec<u8> {
    let mut buf = Vec::with_capacity(w * h * 3);
    for _ in 0..w * h {
        buf.push(c.red);
        buf.push(c.green);
        buf.push(c.blue);
    }
    buf
}

fn resting(x: i32, y: i32) -> Particle {
    Particle::new((x, y), (0, 0), 0, 0, false)
}

fn pixel(buf: &[u8], w: usize, x: usize, y: usize) -> (u8, u8, u8) {
    let base = 3 * (y * w + x);
    (buf[base], buf[base + 1], buf[base + 2])
}

#[test]
fn score_of_identical_colors_is_one() {
    let c = Rgb::new(10, 20, 30);
    assert_eq!(c.calc_like(c), 1_000_000);
}

#[test]
fn score_of_black_and_white_is_zero() {
    let black = Rgb::new(0, 0, 0);
    let white = Rgb::new(255, 255, 255);
    assert_eq!(black.calc_like(white), 0);
    assert_eq!(white.calc_like(black), 0);
}

#[test]
fn score_exact_values() {
    assert_eq!(Rgb::new(100, 100, 100).calc_like(Rgb::new(0, 0, 0)), 607_844);
    assert_eq!(Rgb::new(255, 0, 0).calc_like(Rgb::new(0, 0, 255)), 183_504);
    assert_eq!(Rgb::new(1, 0, 0).calc_like(Rgb::new(0, 0, 0)), 997_736);
    assert_eq!(Rgb::new(200, 30, 60).calc_like(Rgb::new(55, 225, 195)), 370_612);
}

#[test]
fn score_stays_within_bounds() {
    let pairs = [
        ((0u8, 0u8, 0u8), (255u8, 255u8, 255u8)),
        ((17, 99, 3), (200, 1, 254)),
        ((128, 128, 128), (127, 129, 126)),
        ((255, 0, 255), (0, 255, 0)),
    ];
    for ((r1, g1, b1), (r2, g2, b2)) in pairs {
        let s = Rgb::new(r1, g1, b1).calc_like(Rgb::new(r2, g2, b2));
        assert!(s <= 1_000_000);
    }
}

#[test]
fn sample_frame_reads_the_grid() {
    let buf: Vec<u8> = vec![
        1, 2, 3, 4, 5, 6, //
        7, 8, 9, 10, 11, 12,
    ];
    let grid = sample_frame(&buf, 2, 2).unwrap();
    assert_eq!(grid.len(), 2);
    assert_eq!(grid[0].len(), 2);
    assert_eq!((grid[0][0].red, grid[0][0].green, grid[0][0].blue), (1, 2, 3));
    assert_eq!((grid[0][1].red, grid[0][1].green, grid[0][1].blue), (4, 5, 6));
    assert_eq!((grid[1][0].red, grid[1][0].green, grid[1][0].blue), (7, 8, 9));
    assert_eq!((grid[1][1].red, grid[1][1].green, grid[1][1].blue), (10, 11, 12));
}

#[test]
fn sample_frame_rejects_short_buffers() {
    let buf: Vec<u8> = vec![0; 11];
    assert_eq!(sample_frame(&buf, 2, 2), Err(FrameError::BufferTooShort));
}

#[test]
fn new_population_is_seeded_inside_the_frame() {
    let p = ParamsForParticle::new((10, 10), 5, Rgb::new(1, 2, 3));
    assert_eq!(p.camera, (10, 10));
    assert_eq!(p.num, 5);
    assert_eq!(p.center, (5, 5));
    assert!(p.pars.len() < 5);
    for q in &p.pars {
        assert!(0 <= q.pos.0 && q.pos.0 < 10);
        assert!(0 <= q.pos.1 && q.pos.1 < 10);
        assert_eq!(q.vel, (0, 0));
        assert_eq!(q.like, 1_000_000);
        assert_eq!(q.wgt, 0);
        assert!(!q.keep);
    }
}

#[test]
fn out_of_frame_particles_score_zero() {
    let target = Rgb::new(0, 0, 0);
    let buf = solid_frame(100, 80, target);
    let grid = sample_frame(&buf, 100, 80).unwrap();
    let mut params = ParamsForParticle::new((100, 80), 4, target);
    params.pars = vec![
        resting(200, 200),
        resting(-5, 10),
        resting(50, 50),
        resting(100, 40),
        resting(0, 40),
    ];
    predict_and_score(&mut params, &grid);
    assert_eq!(params.pars[0].like, 0);
    assert_eq!(params.pars[1].like, 0);
    assert_eq!(params.pars[2].like, 1_000_000);
    assert_eq!(params.pars[3].like, 0);
    assert_eq!(params.pars[4].like, 0);
}

#[test]
fn prediction_adds_the_velocity() {
    let target = Rgb::new(9, 9, 9);
    let buf = solid_frame(20, 20, target);
    let grid = sample_frame(&buf, 20, 20).unwrap();
    let mut params = ParamsForParticle::new((20, 20), 2, target);
    params.pars = vec![Particle::new((3, 4), (2, -1), 7, 8, false)];
    predict_and_score(&mut params, &grid);
    assert_eq!(params.pars[0].pos, (5, 3));
    assert_eq!(params.pars[0].vel, (2, -1));
    assert_eq!(params.pars[0].like, 1_000_000);
    assert_eq!(params.pars[0].wgt, 8);
}

#[test]
fn sort_orders_ascending_by_likelihood() {
    let mut pars = vec![
        Particle::new((1, 0), (0, 0), 500, 0, false),
        Particle::new((2, 0), (0, 0), 100, 0, false),
        Particle::new((3, 0), (0, 0), 900, 0, false),
        Particle::new((4, 0), (0, 0), 100, 0, false),
    ];
    sort_by_like(&mut pars);
    let likes: Vec<u32> = pars.iter().map(|p| p.like).collect();
    assert_eq!(likes, vec![100, 100, 500, 900]);
    let mut xs: Vec<i32> = pars.iter().map(|p| p.pos.0).collect();
    xs.sort();
    assert_eq!(xs, vec![1, 2, 3, 4]);
}

#[test]
fn selection_keeps_the_top_rank_and_the_absolute_bar() {
    // 200 particles, distinct likelihoods all below the bar: the rule keeps
    // ranks above n - n/100 = 198, i.e. the single highest.
    let mut pars: Vec<Particle> = (0..200)
        .map(|i| Particle::new((i, 0), (0, 0), (i as u32) * 4_000, 0, false))
        .collect();
    select_survivors(&mut pars);
    assert_eq!(pars.len(), 1);
    assert_eq!(pars[0].like, 199 * 4_000);
    assert!(pars[0].keep);

    // Anything clearing the absolute bar of 900000 stays too, even where the
    // rank rule alone would keep just the single highest.
    let mut pars: Vec<Particle> = (0..200)
        .map(|i| Particle::new((i, 0), (0, 0), (i as u32) * 4_000, 0, false))
        .collect();
    pars[0] = Particle::new((0, 0), (0, 0), 950_000, 0, false);
    pars[1] = Particle::new((1, 0), (0, 0), 920_000, 0, false);
    sort_by_like(&mut pars);
    select_survivors(&mut pars);
    assert_eq!(pars.len(), 2);
    assert!(pars.iter().any(|p| p.like == 950_000));
    assert!(pars.iter().any(|p| p.like == 920_000));
}

#[test]
fn selection_keeps_nobody_below_one_hundred_without_the_bar() {
    // With n < 100 the rank rule keeps nothing: n/100 = 0 and i > n never
    // holds, so only the absolute bar can save a particle.
    let mut pars: Vec<Particle> = (0..99)
        .map(|i| Particle::new((i, 0), (0, 0), (i as u32) * 9_000, 0, false))
        .collect();
    select_survivors(&mut pars);
    assert_eq!(pars.len(), 0);
}

#[test]
fn weights_are_the_likelihood_share_of_the_sum() {
    let mut pars = vec![
        Particle::new((0, 0), (0, 0), 100_000, 0, true),
        Particle::new((1, 0), (0, 0), 200_000, 0, true),
        Particle::new((2, 0), (0, 0), 300_000, 0, true),
        Particle::new((3, 0), (0, 0), 400_000, 0, true),
    ];
    let ls = normalize_weights(&mut pars);
    assert_eq!(ls, 1_000_000);
    let wgts: Vec<u32> = pars.iter().map(|p| p.wgt).collect();
    assert_eq!(wgts, vec![100_000, 200_000, 300_000, 400_000]);
    let total: u64 = wgts.iter().map(|w| *w as u64).sum();
    assert!(1_000_000 - 4 < total && total <= 1_000_000);
}

#[test]
fn weight_sum_stays_within_the_floor_tolerance() {
    let mut pars = vec![
        Particle::new((0, 0), (0, 0), 1, 0, true),
        Particle::new((1, 0), (0, 0), 1, 0, true),
        Particle::new((2, 0), (0, 0), 1, 0, true),
    ];
    let ls = normalize_weights(&mut pars);
    assert_eq!(ls, 3);
    let total: u64 = pars.iter().map(|p| p.wgt as u64).sum();
    assert!(1_000_000 - 3 < total && total <= 1_000_000);
}

#[test]
fn degenerate_likelihood_sum_gives_zero_weights() {
    let mut pars = vec![
        Particle::new((0, 0), (0, 0), 0, 7, true),
        Particle::new((1, 0), (0, 0), 0, 9, true),
    ];
    let ls = normalize_weights(&mut pars);
    assert_eq!(ls, 0);
    assert!(pars.iter().all(|p| p.wgt == 0));
}

#[test]
fn diffusion_children_never_exceed_the_gap() {
    let mut params = ParamsForParticle::new((100, 100), 10, Rgb::new(0, 0, 0));
    params.pars = vec![
        Particle::new((10, 10), (0, 0), 600_000, 0, true),
        Particle::new((20, 20), (0, 0), 400_000, 0, true),
    ];
    let ls = normalize_weights(&mut params.pars);
    assert_eq!(ls, 1_000_000);
    let offsets: Vec<(i32, i32)> = vec![(10, -10); 10];
    spawn_children(&mut params, ls, &offsets);
    // gap = 10 - 2 = 8; counts are 600000*8/1000000 = 4 and 400000*8/1000000 = 3.
    assert_eq!(params.pars.len(), 2 + 4 + 3);
    assert!(params.pars.len() <= 10);
    // A child of the 600000-parent scales (10, -10) by the remaining 0.4.
    let child = params.pars[2];
    assert_eq!(child.pos, (14, 6));
    assert_eq!(child.vel, (4, -4));
    assert_eq!(child.like, 600_000);
    assert_eq!(child.wgt, params.pars[0].wgt);
    assert!(!child.keep);
    // A child of the 400000-parent scales (10, -10) by the remaining 0.6.
    let child = params.pars[6];
    assert_eq!(child.pos, (26, 14));
    assert_eq!(child.vel, (6, -6));
    assert_eq!(child.like, 400_000);
}

#[test]
fn one_tick_on_a_uniform_frame_keeps_the_top_rank() {
    // Target color absent from the frame: every particle scores the same
    // mid-range likelihood, selection keeps the 9 ranked above n - n/100,
    // and diffusion refills toward the target count.
    let w = 100usize;
    let h = 80usize;
    let color = Rgb::new(100, 100, 100);
    let target = Rgb::new(0, 0, 0);
    let mut buf = solid_frame(w, h, color);
    let mut params = ParamsForParticle::new((100, 80), 1_000, target);
    params.pars = vec![resting(50, 50); 1_000];
    let offsets: Vec<(i32, i32)> = vec![(0, 0); 1_000];
    let r = particle(&mut buf, &mut params, &offsets);
    assert_eq!(r, Ok(()));
    // 9 survivors spawn floor(991 / 9) = 110 children each.
    assert_eq!(params.pars.len(), 9 + 9 * 110);
    for p in &params.pars {
        assert_eq!(p.pos, (50, 50));
        assert_eq!(p.like, 607_844);
        assert_eq!(p.wgt, 111_111);
    }
    assert_eq!(params.center, (50, 50));
    // The crosshair overwrites the centroid row and column.
    for x in 0..w {
        assert_eq!(pixel(&buf, w, x, 50), (255, 255, 255));
    }
    for y in 0..h {
        assert_eq!(pixel(&buf, w, 50, y), (255, 255, 255));
    }
    // Away from the crosshair the frame keeps its color.
    assert_eq!(pixel(&buf, w, 10, 10), (100, 100, 100));
}

#[test]
fn markers_are_stamped_on_in_frame_particles() {
    let w = 20usize;
    let h = 15usize;
    let target = Rgb::new(40, 50, 60);
    let mut buf = solid_frame(w, h, target);
    let mut params = ParamsForParticle::new((20, 15), 2, target);
    params.pars = vec![resting(4, 4), resting(6, 6)];
    let offsets: Vec<(i32, i32)> = vec![(0, 0); 2];
    let r = particle(&mut buf, &mut params, &offsets);
    assert_eq!(r, Ok(()));
    // Both particles match the target exactly and survive; no gap is left.
    assert_eq!(params.pars.len(), 2);
    assert_eq!(params.center, (5, 5));
    assert_eq!(pixel(&buf, w, 4, 4), (255, 0, 0));
    assert_eq!(pixel(&buf, w, 6, 6), (255, 0, 0));
    for x in 0..w {
        assert_eq!(pixel(&buf, w, x, 5), (255, 255, 255));
    }
    for y in 0..h {
        assert_eq!(pixel(&buf, w, 5, y), (255, 255, 255));
    }
    assert_eq!(pixel(&buf, w, 3, 3), (40, 50, 60));
}

#[test]
fn degenerate_selection_empties_the_population_without_a_crash() {
    // A single out-of-frame particle: n/100 = 0, nothing survives, the
    // likelihood sum is degenerate, no children spawn, and the centroid and
    // the crosshair are skipped.
    let w = 50usize;
    let h = 40usize;
    let color = Rgb::new(128, 128, 128);
    let mut buf = solid_frame(w, h, color);
    let before = buf.clone();
    let mut params = ParamsForParticle::new((50, 40), 10, Rgb::new(0, 0, 0));
    params.pars = vec![resting(100, 100)];
    let old_center = params.center;
    let offsets: Vec<(i32, i32)> = vec![(0, 0); 10];
    let r = particle(&mut buf, &mut params, &offsets);
    assert_eq!(r, Ok(()));
    assert_eq!(params.pars.len(), 0);
    assert_eq!(params.center, old_center);
    assert_eq!(buf, before);
}

#[test]
fn short_buffers_are_rejected_and_nothing_changes() {
    let mut buf: Vec<u8> = vec![7; 100];
    let before = buf.clone();
    let mut params = ParamsForParticle::new((50, 40), 10, Rgb::new(0, 0, 0));
    params.pars = vec![resting(10, 10)];
    let offsets: Vec<(i32, i32)> = vec![(0, 0); 10];
    let r = particle(&mut buf, &mut params, &offsets);
    assert_eq!(r, Err(FrameError::BufferTooShort));
    assert_eq!(buf, before);
    assert_eq!(params.pars.len(), 1);
    assert_eq!(params.pars[0].pos, (10, 10));
}

#[test]
fn population_converges_onto_the_target_block() {
    // A 640x360 frame holding a single 50x50 block of the pure target color
    // on a background of its exact complement: over a few ticks the
    // population concentrates inside the block and the centroid lands there.
    let w = 640usize;
    let h = 360usize;
    let target = Rgb::new(0, 0, 0);
    let bg = Rgb::new(255, 255, 255);
    let mut params = ParamsForParticle::new((640, 360), 10_000, target);
    let mut pars: Vec<Particle> = Vec::with_capacity(10_000);
    for i in 0..200 {
        pars.push(resting(300 + (i % 50) as i32, 150 + (i / 50 % 50) as i32));
    }
    for i in 0..9_800 {
        pars.push(resting(1 + (i % 250) as i32, 1 + (i / 250 % 358) as i32));
    }
    params.pars = pars;
    let offsets: Vec<(i32, i32)> = vec![(0, 0); 10_000];
    for _ in 0..3 {
        // Each tick observes a fresh frame, as a camera would deliver it.
        let mut buf = Vec::with_capacity(w * h * 3);
        for y in 0..h {
            for x in 0..w {
                let c = if (300..350).contains(&x) && (150..200).contains(&y) { target } else { bg };
                buf.push(c.red);
                buf.push(c.green);
                buf.push(c.blue);
            }
        }
        let r = particle(&mut buf, &mut params, &offsets);
        assert_eq!(r, Ok(()));
        assert!(!params.pars.is_empty());
    }
    for p in &params.pars {
        assert!((300..350).contains(&p.pos.0) && (150..200).contains(&p.pos.1));
    }
    assert!((300..350).contains(&params.center.0));
    assert!((150..200).contains(&params.center.1));
}

#[test]
fn grayscale_levels_the_first_three_channels() {
    let mut buf: Vec<u8> = vec![255, 0, 0, 0, 255, 0, 0, 0, 255, 9];
    grayscale(&mut buf, 3);
    assert_eq!(buf, vec![76, 76, 76, 149, 149, 149, 29, 29, 29, 9]);
}

#[test]
fn grayscale_skips_extra_channels() {
    let mut buf: Vec<u8> = vec![255, 0, 0, 200, 0, 255, 0, 100];
    grayscale(&mut buf, 4);
    assert_eq!(buf, vec![76, 76, 76, 200, 149, 149, 149, 100]);
}

#[test]
fn reverse_rgb_inverts_every_byte() {
    let mut buf: Vec<u8> = vec![0, 255, 10, 128];
    reverse_rgb(&mut buf);
    assert_eq!(buf, vec![255, 0, 245, 127]);
}
