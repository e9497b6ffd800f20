use dog_food_for_you::{EntityKind, Error, Mapping, WalkRng};

fn fixture() -> Mapping {
    Mapping::new(
        b"Sparky,burger\nSparky,pizza\nMax,burger\nMax,taco",
        b"burger,cheese\nburger,tomato\npizza,cheese\ntaco,beef",
        b"cheese,salty\ntomato,salty\ntomato,savory\nbeef,savory",
    )
    .unwrap()
}

#[test]
fn test_base64_encode_exact() {
    assert_eq!(&Mapping::base64_encode(0), b"AAA");
    assert_eq!(&Mapping::base64_encode(1), b"AQA");
    assert_eq!(&Mapping::base64_encode(255), b"/wA");
    assert_eq!(&Mapping::base64_encode(256), b"AAE");
    assert_eq!(&Mapping::base64_encode(65535), b"//8");
}

#[test]
fn test_base64_encode_matches_crate() {
    // The trusted encoder must agree with the base64 crate itself.
    for code in [0u16, 1, 63, 64, 255, 256, 4095, 65535] {
        let mine = Mapping::base64_encode(code);
        let theirs = base64::encode_config(code.to_le_bytes(), base64::STANDARD_NO_PAD);
        assert_eq!(std::str::from_utf8(&mine).unwrap(), theirs);
    }
}

#[test]
fn test_id_reads_cache() {
    let maps = fixture();
    assert_eq!(maps.id(0), Mapping::base64_encode(0));
    assert_eq!(maps.id(2), Mapping::base64_encode(2));
}

#[test]
fn test_referential_closure_samplers_never_fail() {
    let maps = fixture();
    let mut rng = WalkRng::new().unwrap();
    let n_foods = maps.food_ingredient_map().len() as u16;
    for food in 0..n_foods {
        assert!(maps.ingredient_in_food(food, &mut rng).is_ok());
        assert!(maps.dog_that_likes_food(food, &mut rng).is_ok());
    }
    let n_ings = maps.ingredient_flavor_map().len() as u16;
    for ing in 0..n_ings {
        assert!(maps.flavor_for_ingredient(ing, &mut rng).is_ok());
        assert!(maps.food_with_ingredient(ing, &mut rng).is_ok());
    }
    let n_flavors = maps.flavor_ingredient_map().len() as u16;
    for flavor in 0..n_flavors {
        assert!(maps.ingredient_with_flavor(flavor, &mut rng).is_ok());
    }
    for dog in maps.dogs() {
        assert!(maps.food_liked_by_dog(dog, &mut rng).is_ok());
    }
}

#[test]
fn test_sampler_unknown_code() {
    let maps = fixture();
    let mut rng = WalkRng::new().unwrap();
    assert_eq!(maps.food_liked_by_dog(99, &mut rng).err(), Some(Error::UnknownCode));
    assert_eq!(maps.ingredient_in_food(99, &mut rng).err(), Some(Error::UnknownCode));
}

#[test]
fn test_weight_by_multiplicity() {
    // burger appears twice among Sparky's three entries: expect it to be
    // drawn with probability near 2/3.
    let maps = Mapping::new(
        b"Sparky,burger\nSparky,burger\nSparky,pizza",
        b"burger,cheese\npizza,cheese",
        b"cheese,salty",
    )
    .unwrap();
    assert_eq!(maps.dog_food_map(), &vec![vec![0u16, 0, 1]]);
    let mut rng = WalkRng::new().unwrap();
    let draws = 9000;
    let mut burgers = 0;
    for _ in 0..draws {
        if maps.food_liked_by_dog(0, &mut rng).unwrap() == 0 {
            burgers += 1;
        }
    }
    // 2/3 of 9000 is 6000; allow a wide statistical tolerance.
    assert!(burgers > 5500, "burger drawn only {} times", burgers);
    assert!(burgers < 6500, "burger drawn {} times", burgers);
}

#[test]
fn test_line_shape() {
    let maps = fixture();
    let mut rng = WalkRng::new().unwrap();
    for w in [1u8, 2, 5] {
        let line = dog_food_for_you::walk::get_line(w, 0, &maps, &mut rng).unwrap();
        let tokens = 1 + 6 * w as usize;
        assert_eq!(line.len(), 4 * tokens);
        let spaces = line.iter().filter(|&&b| b == b' ').count();
        assert_eq!(spaces, tokens - 1);
        let newlines = line.iter().filter(|&&b| b == b'\n').count();
        assert_eq!(newlines, 1);
        assert_eq!(*line.last().unwrap(), b'\n');
        let text = std::str::from_utf8(&line).unwrap();
        assert_eq!(text.trim_end_matches('\n').split(' ').count(), tokens);
    }
}

#[test]
fn test_line_unknown_dog() {
    let maps = fixture();
    let mut rng = WalkRng::new().unwrap();
    let r = dog_food_for_you::walk::get_line(1, 50, &maps, &mut rng);
    assert_eq!(r.err(), Some(Error::UnknownCode));
}

#[test]
fn test_dog_block_ordering() {
    let maps = fixture();
    let lines_per_dog = 3usize;
    let corpus = dog_food_for_you::walk::build_corpus(&maps, lines_per_dog as u8, 2).unwrap();
    let text = String::from_utf8(corpus).unwrap();
    let lines: Vec<&str> = text.lines().collect();
    assert_eq!(lines.len(), 2 * lines_per_dog);
    let mut prev_dog = String::new();
    for (i, chunk) in lines.chunks(lines_per_dog).enumerate() {
        let tok = std::str::from_utf8(&Mapping::base64_encode(i as u16)).unwrap().to_string();
        for line in chunk {
            let first = line.split(' ').next().unwrap();
            assert_eq!(first, tok);
        }
        assert!(prev_dog <= tok || prev_dog.is_empty());
        prev_dog = tok;
    }
}

#[test]
fn test_structure_determinism() {
    let maps = fixture();
    let one = dog_food_for_you::walk::build_corpus(&maps, 2, 3).unwrap();
    let two = dog_food_for_you::walk::build_corpus(&maps, 2, 3).unwrap();
    assert_eq!(one.len(), two.len());
    let t1 = String::from_utf8(one).unwrap();
    let t2 = String::from_utf8(two).unwrap();
    let l1: Vec<&str> = t1.lines().collect();
    let l2: Vec<&str> = t2.lines().collect();
    assert_eq!(l1.len(), l2.len());
    for (a, b) in l1.iter().zip(l2.iter()) {
        assert_eq!(a.split(' ').count(), b.split(' ').count());
        assert_eq!(a.len(), b.len());
    }
}

#[test]
fn test_corpus_line_count() {
    let maps = fixture();
    let corpus = dog_food_for_you::walk::build_corpus(&maps, 4, 1).unwrap();
    let line_len = 4 * (1 + 6);
    assert_eq!(corpus.len(), 2 * 4 * line_len);
}

#[test]
fn test_string_for() {
    let maps = fixture();
    assert_eq!(maps.string_for(EntityKind::Dog, 0).unwrap(), &b"Sparky".to_vec());
    assert_eq!(maps.string_for(EntityKind::Dog, 1).unwrap(), &b"Max".to_vec());
    assert_eq!(maps.string_for(EntityKind::Food, 2).unwrap(), &b"taco".to_vec());
    assert_eq!(maps.string_for(EntityKind::Flavor, 1).unwrap(), &b"savory".to_vec());
    assert_eq!(maps.string_for(EntityKind::Dog, 9).err(), Some(Error::UnknownCode));
}

#[test]
fn test_mapping_file_content() {
    let maps = fixture();
    let dogs = maps.mapping_file_content(EntityKind::Dog);
    assert_eq!(String::from_utf8(dogs).unwrap(), "Sparky,AAA\nMax,AQA");
    let flavors = maps.mapping_file_content(EntityKind::Flavor);
    assert_eq!(String::from_utf8(flavors).unwrap(), "salty,AAA\nsavory,AQA");
}

#[test]
fn test_walks_per_line_largest() {
    let maps = fixture();
    let mut rng = WalkRng::new().unwrap();
    let line = dog_food_for_you::walk::get_line(255, 1, &maps, &mut rng).unwrap();
    assert_eq!(line.len(), 4 * (1 + 6 * 255));
    assert_eq!(*line.last().unwrap(), b'\n');
}

#[test]
fn test_entropy_rng_lines_differ_in_values_not_shape() {
    let maps = fixture();
    let mut r1 = WalkRng::new().unwrap();
    let mut r2 = WalkRng::new().unwrap();
    let a = dog_food_for_you::walk::get_line(4, 0, &maps, &mut r1).unwrap();
    let b = dog_food_for_you::walk::get_line(4, 0, &maps, &mut r2).unwrap();
    assert_eq!(a.len(), b.len());
    assert_eq!(&a[0..3], &b[0..3]);
}
