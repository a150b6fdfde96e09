use moving_median::{new, Error, MovingMedian};

#[test]
fn it_works() {
    assert!(new::<i32>(6).is_err());
    assert!(new::<i32>(0).is_err());
    let mut queue = new::<i32>(3).unwrap();
    assert_eq!(queue.odd_sampling_size(), 3);
    queue.add(3);
    queue.add(7);
    assert_eq!(queue.is_full(), false);
    assert_eq!(queue.median(), None);
    queue.add(6);
    assert_eq!(queue.is_full(), true);
    assert_eq!(queue.median(), Some(6));
    queue.add(9);
    assert_eq!(queue.median(), Some(7));
    queue.add(1);
    assert_eq!(queue.median(), Some(6));
    assert_eq!(queue.get(0), Ok(6));
    assert_eq!(queue.get(2), Ok(1));
    assert_eq!(queue.get(3).is_err(), true);
    assert_eq!(queue.get(-3).is_err(), true);
    assert_eq!(queue.get(-1), Ok(1));
    assert_eq!(queue.get(-2), Ok(9));

    let mut str_queue = new::<String>(3).unwrap();
    str_queue.add(String::from("abc"));
    str_queue.add(String::from("def"));
    str_queue.add(String::from("adc"));
    assert_eq!(str_queue.is_full(), true);
    assert_eq!(str_queue.median(), Some(String::from("adc")));
    str_queue.add(String::from("bbe"));
    assert_eq!(str_queue.median(), Some(String::from("bbe")));
}

#[test]
fn even_sizes_are_refused() {
    for size in [0usize, 2, 4, 6, 100, 1 << 20, usize::MAX - 1] {
        assert_eq!(new::<i32>(size).err(), Some(Error::InvalidCapacity));
    }
}

#[test]
fn odd_sizes_are_accepted() {
    for size in [1usize, 3, 5, 7, 99, 1001] {
        let window = new::<u8>(size).unwrap();
        assert_eq!(window.odd_sampling_size(), size);
        assert_eq!(window.is_full(), false);
        assert_eq!(window.median(), None);
        assert_eq!(window.get(0), Err(Error::IndexOutOfBounds));
    }
}

#[test]
fn no_median_until_full() {
    for size in [1usize, 3, 5, 9] {
        let mut window = new::<i64>(size).unwrap();
        assert_eq!(window.median(), None);
        for k in 1..size {
            window.add(k as i64 * 10);
            assert_eq!(window.median(), None);
        }
        window.add(0);
        assert!(window.median().is_some());
    }
}

#[test]
fn full_from_the_size_th_value_on() {
    for size in [1usize, 3, 7] {
        let mut window = new::<u32>(size).unwrap();
        assert!(!window.is_full());
        for k in 1..=(3 * size) {
            window.add(k as u32);
            assert_eq!(window.is_full(), k >= size);
            assert_eq!(window.odd_sampling_size(), size);
        }
    }
}

#[test]
fn worked_example() {
    let mut window = new::<i32>(3).unwrap();
    window.add(3);
    window.add(7);
    window.add(6);
    assert!(window.is_full());
    assert_eq!(window.median(), Some(6));
    window.add(9);
    assert_eq!(window.median(), Some(7));
    window.add(1);
    assert_eq!(window.median(), Some(6));
    assert_eq!(window.get(0), Ok(6));
    assert_eq!(window.get(1), Ok(9));
    assert_eq!(window.get(2), Ok(1));
    assert_eq!(window.get(3), Err(Error::IndexOutOfBounds));
    assert_eq!(window.get(-3), Err(Error::IndexOutOfBounds));
    assert_eq!(window.get(-1), Ok(1));
    assert_eq!(window.get(-2), Ok(9));
}

#[test]
fn string_example() {
    let mut window = new::<String>(3).unwrap();
    window.add(String::from("abc"));
    window.add(String::from("def"));
    assert_eq!(window.median(), None);
    window.add(String::from("adc"));
    assert_eq!(window.median(), Some(String::from("adc")));
    window.add(String::from("bbe"));
    assert_eq!(window.median(), Some(String::from("bbe")));
    assert_eq!(window.get(0), Ok(String::from("def")));
    assert_eq!(window.get(-1), Ok(String::from("bbe")));
}

#[test]
fn size_one_follows_the_newest_value() {
    let mut window = new::<i32>(1).unwrap();
    assert_eq!(window.median(), None);
    for value in [5, -2, -2, 40, i32::MIN, i32::MAX, 0] {
        window.add(value);
        assert!(window.is_full());
        assert_eq!(window.median(), Some(value));
        assert_eq!(window.get(0), Ok(value));
        assert_eq!(window.get(-1), Err(Error::IndexOutOfBounds));
        assert_eq!(window.get(1), Err(Error::IndexOutOfBounds));
    }
}

#[test]
fn indexing_from_both_ends() {
    let mut window = new::<char>(5).unwrap();
    for (held, value) in ['a', 'b', 'c', 'd', 'e', 'f', 'g'].into_iter().enumerate() {
        window.add(value);
        let len = (held + 1).min(5) as isize;
        let oldest = (b'a' + (held + 1 - len as usize) as u8) as char;
        assert_eq!(window.get(0), Ok(oldest));
        assert_eq!(window.get(len - 1), Ok(value));
        if len > 1 {
            assert_eq!(window.get(-1), Ok(value));
            assert_eq!(window.get(-(len - 1)), Ok((oldest as u8 + 1) as char));
        }
        assert_eq!(window.get(len), Err(Error::IndexOutOfBounds));
        assert_eq!(window.get(-len), Err(Error::IndexOutOfBounds));
        assert_eq!(window.get(len + 1), Err(Error::IndexOutOfBounds));
        assert_eq!(window.get(-len - 1), Err(Error::IndexOutOfBounds));
    }
    assert_eq!(window.get(1), Ok('d'));
    assert_eq!(window.get(2), Ok('e'));
    assert_eq!(window.get(3), Ok('f'));
    assert_eq!(window.get(-2), Ok('f'));
    assert_eq!(window.get(-3), Ok('e'));
    assert_eq!(window.get(-4), Ok('d'));
}

#[test]
fn extreme_indices_are_out_of_bounds() {
    let mut window = new::<u8>(3).unwrap();
    assert_eq!(window.get(isize::MIN), Err(Error::IndexOutOfBounds));
    assert_eq!(window.get(isize::MAX), Err(Error::IndexOutOfBounds));
    assert_eq!(window.get(-1), Err(Error::IndexOutOfBounds));
    window.add(1);
    window.add(2);
    window.add(3);
    assert_eq!(window.get(isize::MIN), Err(Error::IndexOutOfBounds));
    assert_eq!(window.get(isize::MIN + 1), Err(Error::IndexOutOfBounds));
    assert_eq!(window.get(isize::MAX), Err(Error::IndexOutOfBounds));
}

#[test]
fn first_median_comes_from_the_sorted_window() {
    let mut window = new::<i32>(7).unwrap();
    for value in [40, -3, 12, 12, 99, 0, 7] {
        window.add(value);
    }
    // sorted: -3 0 7 12 12 40 99
    assert_eq!(window.median(), Some(12));

    let mut window = new::<u64>(5).unwrap();
    for value in [5, 4, 3, 2, 1] {
        window.add(value);
    }
    assert_eq!(window.median(), Some(3));
}

#[test]
fn median_moves_up_and_down_by_one_rank() {
    let mut window = new::<i32>(5).unwrap();
    for value in [10, 20, 30, 40, 50] {
        window.add(value);
    }
    assert_eq!(window.median(), Some(30));
    // 10 leaves, 60 comes: 20 30 40 50 60
    window.add(60);
    assert_eq!(window.median(), Some(40));
    // 20 leaves, 35 comes: 30 40 50 60 35
    window.add(35);
    assert_eq!(window.median(), Some(40));
    // 30 leaves, 5 comes: 40 50 60 35 5
    window.add(5);
    assert_eq!(window.median(), Some(40));
    // 40 leaves, 1 comes: 50 60 35 5 1
    window.add(1);
    assert_eq!(window.median(), Some(35));
    // 50 leaves, 2 comes: 60 35 5 1 2
    window.add(2);
    assert_eq!(window.median(), Some(5));
    // 60 leaves, 5 comes: 35 5 1 2 5
    window.add(5);
    assert_eq!(window.median(), Some(5));
    // 35 leaves, 5 comes: 5 1 2 5 5
    window.add(5);
    assert_eq!(window.median(), Some(5));
    // 5 leaves, 100 comes: 1 2 5 5 100
    window.add(100);
    assert_eq!(window.median(), Some(5));
    // 1 leaves, 100 comes: 2 5 5 100 100
    window.add(100);
    assert_eq!(window.median(), Some(5));
    // 2 leaves, 100 comes: 5 5 100 100 100
    window.add(100);
    assert_eq!(window.median(), Some(100));
}

#[test]
fn median_leaving_the_window_is_replaced() {
    let mut window = new::<i32>(3).unwrap();
    window.add(2);
    window.add(1);
    window.add(3);
    assert_eq!(window.median(), Some(2));
    // the median itself leaves and a greater value comes: 1 3 9
    window.add(9);
    assert_eq!(window.median(), Some(3));
    // 1 leaves, the median comes again: 3 9 3
    window.add(3);
    assert_eq!(window.median(), Some(3));
    // the median leaves and a lesser value comes: 9 3 0
    window.add(0);
    assert_eq!(window.median(), Some(3));
    // 9 leaves, 0 comes: 3 0 0
    window.add(0);
    assert_eq!(window.median(), Some(0));
}

#[test]
fn constant_stream_keeps_its_value() {
    let mut window = new::<u16>(9).unwrap();
    for k in 0..40 {
        window.add(7);
        assert_eq!(window.median(), if k >= 8 { Some(7) } else { None });
    }
}

fn compare_with_sorting<T: Ord + Clone + std::fmt::Debug>(window: &MovingMedian<T>, size: usize, given: &[T]) {
    let held = given.len().min(size);
    let kept = &given[given.len() - held..];
    assert_eq!(window.odd_sampling_size(), size);
    assert_eq!(window.is_full(), given.len() >= size);
    for (at, value) in kept.iter().enumerate() {
        assert_eq!(window.get(at as isize).as_ref(), Ok(value));
        if at > 0 {
            assert_eq!(window.get(at as isize - held as isize).as_ref(), Ok(value));
        }
    }
    assert_eq!(window.get(held as isize), Err(Error::IndexOutOfBounds));
    assert_eq!(window.get(-(held as isize)), Err(Error::IndexOutOfBounds));
    if given.len() >= size {
        let mut ordered = kept.to_vec();
        ordered.sort();
        assert_eq!(window.median(), Some(ordered[size / 2].clone()));
    } else {
        assert_eq!(window.median(), None);
    }
}

fn next(state: &mut u64) -> u64 {
    *state = state.wrapping_mul(6364136223846793005).wrapping_add(1442695040888963407);
    *state >> 33
}

#[test]
fn matches_sorting_on_numbers() {
    let mut state = 0x2545_f491_4f6c_dd1d;
    for round in 0..60 {
        let size = 2 * (next(&mut state) as usize % 8) + 1;
        let count = next(&mut state) as usize % 70;
        let spread = [2, 5, 50, 1_000_000][round % 4];
        let mut window = new::<i64>(size).unwrap();
        let mut given = Vec::new();
        compare_with_sorting(&window, size, &given);
        for _ in 0..count {
            let value = (next(&mut state) % spread) as i64 - (spread / 2) as i64;
            window.add(value);
            given.push(value);
            compare_with_sorting(&window, size, &given);
        }
    }
}

#[test]
fn matches_sorting_on_strings() {
    let mut state = 0x9e37_79b9_7f4a_7c15;
    for _ in 0..40 {
        let size = 2 * (next(&mut state) as usize % 6) + 1;
        let count = next(&mut state) as usize % 50;
        let mut window = new::<String>(size).unwrap();
        let mut given = Vec::new();
        for _ in 0..count {
            let length = next(&mut state) as usize % 4;
            let mut value = String::new();
            for _ in 0..length {
                value.push((b'a' + (next(&mut state) % 3) as u8) as char);
            }
            window.add(value.clone());
            given.push(value);
            compare_with_sorting(&window, size, &given);
        }
    }
}

#[test]
fn matches_sorting_on_pairs() {
    let mut state = 7;
    let mut window = new::<(u8, bool)>(11).unwrap();
    let mut given = Vec::new();
    for _ in 0..300 {
        let value = ((next(&mut state) % 4) as u8, next(&mut state) % 2 == 0);
        window.add(value);
        given.push(value);
        compare_with_sorting(&window, 11, &given);
    }
}

#[test]
fn errors_compare_and_print() {
    assert_ne!(Error::InvalidCapacity, Error::IndexOutOfBounds);
    assert_eq!(format!("{:?}", Error::InvalidCapacity), "InvalidCapacity");
    assert_eq!(format!("{:?}", Error::IndexOutOfBounds), "IndexOutOfBounds");
    let copy = Error::IndexOutOfBounds;
    assert_eq!(copy.clone(), Error::IndexOutOfBounds);
}
