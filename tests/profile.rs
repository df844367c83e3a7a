use hmwiz::error::SampleError;
use hmwiz::profile::{get_gravity, walk_profile, ProfileError, HI_GRAV, LO_GRAV};
use hmwiz::sampling::SeededRng;

fn check_walked(points: &[Option<i32>], slope: i32) {
    assert!(points.iter().all(|p| p.is_some()));
    for w in points.windows(2) {
        let d = w[1].unwrap() - w[0].unwrap();
        assert!(d.abs() <= slope);
    }
    for p in &points[1..] {
        assert!((0..=255).contains(&p.unwrap()));
    }
}

#[test]
fn random_highs_and_lows_profile() {
    let mut points: Vec<Option<i32>> = vec![None; 1024];
    let mut rng = SeededRng::new(17);
    for _ in 0..10 {
        let x = rng.draw_between(1, 1022) as usize;
        let y = rng.draw_between(0, 255) as i32;
        points[x] = Some(y);
    }
    points[0] = Some(0);
    points[1023] = Some(0);
    let mut heights = SeededRng::new(18);
    walk_profile(&mut points, 1, 0, 255, &mut rng, &mut heights).unwrap();
    check_walked(&points, 1);
    assert_eq!(points[0], Some(0));
}

#[test]
fn regular_peaks_profile() {
    let mut points: Vec<Option<i32>> = vec![None; 1024];
    points[0] = Some(0);
    points[1023] = Some(0);
    for idx in [260, 420, 580, 740] {
        points[idx] = Some(180);
    }
    points[1000] = Some(0);
    let mut rng = SeededRng::new(2);
    let mut heights = SeededRng::new(3);
    walk_profile(&mut points, 1, 0, 255, &mut rng, &mut heights).unwrap();
    check_walked(&points, 1);
}

#[test]
fn profile_needs_both_ends() {
    let mut rng = SeededRng::new(0);
    let mut heights = SeededRng::new(1);
    let mut no_start = vec![None, Some(3), Some(4)];
    assert_eq!(
        walk_profile(&mut no_start, 1, 0, 255, &mut rng, &mut heights),
        Err(ProfileError::MissingStart)
    );
    let mut no_end = vec![Some(3), Some(4), None];
    assert_eq!(
        walk_profile(&mut no_end, 1, 0, 255, &mut rng, &mut heights),
        Err(ProfileError::MissingEnd)
    );
}

#[test]
fn profile_start_out_of_reach() {
    let mut rng = SeededRng::new(0);
    let mut heights = SeededRng::new(1);
    let mut far = vec![Some(300), None, Some(0)];
    assert_eq!(
        walk_profile(&mut far, 2, 0, 255, &mut rng, &mut heights),
        Err(ProfileError::Sample(SampleError::InvertedRange))
    );
    let mut near = vec![Some(257), None, None, Some(0)];
    walk_profile(&mut near, 2, 0, 255, &mut rng, &mut heights).unwrap();
    assert_eq!(near[1], Some(255));
}

#[test]
fn gravity_draws_in_range() {
    let mut rng = SeededRng::new(5);
    for _ in 0..50 {
        let g = get_gravity(&mut rng) as i64;
        assert!(HI_GRAV <= g && g <= LO_GRAV);
    }
}
