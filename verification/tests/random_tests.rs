use mapgeneration::random::{
    center_draw, generate_in_interval, next_random_number, noise_sample, reduce_draw, scale_draw,
};
use rand_pcg::Mcg128Xsl64;

#[test]
fn scale_draw_multiplies_then_divides() {
    assert_eq!(scale_draw(0, 1000), 0);
    assert_eq!(scale_draw(332296202, 1000), 77);
    assert_eq!(scale_draw(4025679895, 1000), 937);
    assert_eq!(scale_draw(2147483648, 256), 128);
    assert_eq!(scale_draw(123456, 0), 0);
}

#[test]
fn scale_draw_stays_below_max_for_the_largest_draw() {
    assert_eq!(scale_draw(u32::MAX, 1000), 999);
    assert_eq!(scale_draw(u32::MAX, 1), 0);
    assert_eq!(scale_draw(u32::MAX, 2), 1);
    assert_eq!(scale_draw(u32::MAX, u32::MAX as u64), u32::MAX - 1);
    assert_eq!(scale_draw(u32::MAX, 1 << 32), u32::MAX);
    assert_eq!(scale_draw(0, 1 << 32), 0);
}

#[test]
fn scale_draw_is_even_for_a_power_of_two() {
    // with max = 4 every quarter of the draws goes to one number
    assert_eq!(scale_draw(0x3fff_ffff, 4), 0);
    assert_eq!(scale_draw(0x4000_0000, 4), 1);
    assert_eq!(scale_draw(0x7fff_ffff, 4), 1);
    assert_eq!(scale_draw(0x8000_0000, 4), 2);
    assert_eq!(scale_draw(0xbfff_ffff, 4), 2);
    assert_eq!(scale_draw(0xc000_0000, 4), 3);
    assert_eq!(scale_draw(u32::MAX, 4), 3);
}

#[test]
fn scale_draw_grows_with_the_draw() {
    let mut last = 0;
    for step in 0..=4096u64 {
        let raw = (step * 0xf_ffff).min(u32::MAX as u64) as u32;
        let scaled = scale_draw(raw, 37);
        assert!(last <= scaled && scaled < 37);
        last = scaled;
    }
    assert_eq!(last, 36);
}

#[test]
fn reduce_draw_is_the_remainder() {
    assert_eq!(reduce_draw(0x63b4a3a813ce700a, 1000), 162);
    assert_eq!(reduce_draw(17, 1), 0);
    assert_eq!(reduce_draw(u64::MAX, u16::MAX), (u64::MAX % 65535) as u16);
}

#[test]
fn center_draw_centres_the_upper_half() {
    assert_eq!(center_draw(0), -32768);
    assert_eq!(center_draw(65535), -32768);
    assert_eq!(center_draw(65536), -32767);
    assert_eq!(center_draw(0x8000_0000), 0);
    assert_eq!(center_draw(u32::MAX), 32767);
    assert_eq!(center_draw(332296202), -27698);
}

#[test]
fn next_random_number_follows_the_generator() {
    let mut rng = Mcg128Xsl64::new(42);
    let drawn: Vec<u32> = (0..6).map(|_| next_random_number(1000, &mut rng)).collect();
    assert_eq!(drawn, vec![77, 23, 249, 634, 181, 937]);
}

#[test]
fn generate_in_interval_follows_the_generator() {
    let mut rng = Mcg128Xsl64::new(42);
    let drawn: Vec<u16> = (0..4).map(|_| generate_in_interval(1000, &mut rng)).collect();
    assert_eq!(drawn, vec![162, 404, 174, 839]);
}

#[test]
fn noise_sample_follows_the_generator() {
    let mut rng = Mcg128Xsl64::new(7);
    let drawn: Vec<i32> = (0..6).map(|_| noise_sample(&mut rng)).collect();
    assert_eq!(drawn, vec![-30799, 17650, -9335, 25936, 21629, 16963]);
}

#[test]
fn draws_stay_in_their_ranges() {
    let mut rng = Mcg128Xsl64::new(2024);
    for _ in 0..2000 {
        assert!(next_random_number(256, &mut rng) < 256);
        assert_eq!(next_random_number(1, &mut rng), 0);
        assert!(generate_in_interval(37, &mut rng) < 37);
        let sample = noise_sample(&mut rng);
        assert!(-32768 <= sample && sample < 32768);
    }
}

#[test]
fn equal_seeds_give_equal_draws() {
    let mut first = Mcg128Xsl64::new(99);
    let mut second = Mcg128Xsl64::new(99);
    for _ in 0..100 {
        assert_eq!(next_random_number(4096, &mut first), next_random_number(4096, &mut second));
        assert_eq!(noise_sample(&mut first), noise_sample(&mut second));
    }
}

#[test]
fn each_draw_advances_the_generator_once() {
    let mut rng = Mcg128Xsl64::new(42);
    let mut twin = Mcg128Xsl64::new(42);
    next_random_number(10, &mut rng);
    noise_sample(&mut rng);
    generate_in_interval(10, &mut rng);
    twin.advance(3);
    assert!(rng == twin);
}
