use dog_food_for_you::Mapping;

#[test]
fn test_new_dog_food_file() {
    let food_ingredient_file =
        String::from("burger,cheese\nburger,tomato\npizza,cheese\ntaco,beef");
    let ingredient_flavor_file =
        String::from("cheese,salty\ntomato,salty\ntomato,savory\nbeef,savory");

    let dog_food_file = String::from("Sparky,burger\nSparky,pizza\nMax,burger\nMax,taco");

    let expected_dog_food_map: Vec<Vec<u16>> = vec![vec![0, 1], vec![0, 2]];
    let expected_food_dog_map: Vec<Vec<u16>> = vec![vec![0, 1], vec![0], vec![1]];

    let maps = Mapping::new(
        dog_food_file.as_bytes(),
        food_ingredient_file.as_bytes(),
        ingredient_flavor_file.as_bytes(),
    )
    .unwrap();

    assert_eq!(maps.dog_food_map(), &expected_dog_food_map);
    assert_eq!(maps.food_dog_map(), &expected_food_dog_map);
}

#[test]
fn test_new_food_ingredient_file() {
    let dog_food_file = String::from("Sparky,burger\nSparky,pizza\nMax,burger\nMax,taco");
    let ingredient_flavor_file =
        String::from("cheese,salty\ntomato,salty\ntomato,savory\nbacon,savory");

    let food_ingredient_file =
        String::from("burger,cheese\nburger,tomato\npizza,cheese\ntaco,bacon");

    let expected_food_ingredient_map: Vec<Vec<u16>> = vec![vec![0, 1], vec![0], vec![2]];
    let expected_ingredient_food_map: Vec<Vec<u16>> = vec![vec![0, 1], vec![0], vec![2]];

    let maps = Mapping::new(
        dog_food_file.as_bytes(),
        food_ingredient_file.as_bytes(),
        ingredient_flavor_file.as_bytes(),
    )
    .unwrap();

    assert_eq!(maps.food_ingredient_map(), &expected_food_ingredient_map);
    assert_eq!(maps.ingredient_food_map(), &expected_ingredient_food_map);
}

#[test]
fn test_new_ingredient_flavor_file() {
    let dog_food_file = String::from("Sparky,burger\nSparky,pizza\nMax,burger\nMax,taco");
    let food_ingredient_file =
        String::from("burger,cheese\nburger,tomato\npizza,cheese\ntaco,bacon");

    let ingredient_flavor_file =
        String::from("cheese,salty\ntomato,salty\ntomato,savory\nbacon,savory");

    let expected_ingredient_flavor_map: Vec<Vec<u16>> = vec![vec![0], vec![0, 1], vec![1]];
    let expected_flavor_ingredient_map: Vec<Vec<u16>> = vec![vec![0, 1], vec![1, 2]];

    let maps = Mapping::new(
        dog_food_file.as_bytes(),
        food_ingredient_file.as_bytes(),
        ingredient_flavor_file.as_bytes(),
    )
    .unwrap();

    assert_eq!(maps.ingredient_flavor_map(), &expected_ingredient_flavor_map);
    assert_eq!(maps.flavor_ingredient_map(), &expected_flavor_ingredient_map);
}

#[test]
fn test_get_maps_filtering_food_no_ingredients() {
    let dog_food_file = String::from("Sparky,burger\nSparky,pizza");

    // Notice that pizza has no ingredients
    let food_ingredient_file = String::from("burger,cheese");

    let ingredient_flavor_file = String::from("cheese,salty");

    let maps = Mapping::new(
        dog_food_file.as_bytes(),
        food_ingredient_file.as_bytes(),
        ingredient_flavor_file.as_bytes(),
    )
    .unwrap();

    let one: Vec<Vec<u16>> = vec![vec![0]];
    assert_eq!(maps.dog_food_map(), &one);
    assert_eq!(maps.food_dog_map(), &one);
    assert_eq!(maps.food_ingredient_map(), &one);
    assert_eq!(maps.ingredient_food_map(), &one);
    assert_eq!(maps.ingredient_flavor_map(), &one);
    assert_eq!(maps.flavor_ingredient_map(), &one);
}

#[test]
fn test_get_maps_filtering_ingredients_no_flavors() {
    let dog_food_file = String::from("Sparky,burger");

    let food_ingredient_file = String::from("burger,cheese\nburger,tomato");

    // Notice that the tomato has no flavors
    let ingredient_flavor_file = String::from("cheese,salty");

    let maps = Mapping::new(
        dog_food_file.as_bytes(),
        food_ingredient_file.as_bytes(),
        ingredient_flavor_file.as_bytes(),
    )
    .unwrap();

    let one: Vec<Vec<u16>> = vec![vec![0]];
    assert_eq!(maps.dog_food_map(), &one);
    assert_eq!(maps.food_dog_map(), &one);
    assert_eq!(maps.food_ingredient_map(), &one);
    assert_eq!(maps.ingredient_food_map(), &one);
    assert_eq!(maps.ingredient_flavor_map(), &one);
    assert_eq!(maps.flavor_ingredient_map(), &one);
}

#[test]
fn test_get_maps_filtering_ingredient_no_food() {
    let dog_food_file = String::from("Sparky,burger");

    // Notice that no foods use tomato
    let food_ingredient_file = String::from("burger,cheese");

    let ingredient_flavor_file = String::from("cheese,salty\ntomato,salty");

    let maps = Mapping::new(
        dog_food_file.as_bytes(),
        food_ingredient_file.as_bytes(),
        ingredient_flavor_file.as_bytes(),
    )
    .unwrap();

    let one: Vec<Vec<u16>> = vec![vec![0]];
    assert_eq!(maps.dog_food_map(), &one);
    assert_eq!(maps.food_dog_map(), &one);
    assert_eq!(maps.food_ingredient_map(), &one);
    assert_eq!(maps.ingredient_food_map(), &one);
    assert_eq!(maps.ingredient_flavor_map(), &one);
    assert_eq!(maps.flavor_ingredient_map(), &one);
}

#[test]
fn test_get_maps_filtering_food_no_dog() {
    // Notice no dog ate pizza
    let dog_food_file = String::from("Sparky,burger");

    let food_ingredient_file = String::from("burger,cheese\npizza,tomato");

    let ingredient_flavor_file = String::from("cheese,salty\ntomato,salty");

    let maps = Mapping::new(
        dog_food_file.as_bytes(),
        food_ingredient_file.as_bytes(),
        ingredient_flavor_file.as_bytes(),
    )
    .unwrap();

    let one: Vec<Vec<u16>> = vec![vec![0]];
    assert_eq!(maps.dog_food_map(), &one);
    assert_eq!(maps.food_dog_map(), &one);
    assert_eq!(maps.food_ingredient_map(), &one);
    assert_eq!(maps.ingredient_food_map(), &one);
    assert_eq!(maps.ingredient_flavor_map(), &one);
    assert_eq!(maps.flavor_ingredient_map(), &one);
}

#[test]
fn test_dogs_ascending() {
    let maps = Mapping::new(
        b"Sparky,burger\nMax,burger",
        b"burger,cheese",
        b"cheese,salty",
    )
    .unwrap();
    assert_eq!(maps.dogs(), vec![0u16, 1u16]);
}

#[test]
fn test_malformed_record_no_comma() {
    let r = Mapping::new(b"Sparky", b"burger,cheese", b"cheese,salty");
    assert_eq!(r.err(), Some(dog_food_for_you::Error::MalformedRecord));
}

#[test]
fn test_malformed_record_two_commas() {
    let r = Mapping::new(
        b"Sparky,burger",
        b"burger,cheese,extra",
        b"cheese,salty",
    );
    assert_eq!(r.err(), Some(dog_food_for_you::Error::MalformedRecord));
}

#[test]
fn test_empty_inputs_give_empty_model() {
    let maps = Mapping::new(b"", b"", b"").unwrap();
    assert_eq!(maps.dogs(), Vec::<u16>::new());
    assert_eq!(maps.dog_food_map().len(), 0);
}

#[test]
fn test_get_lines_parses_pairs() {
    let rs = Mapping::get_lines(b"a,b\nc,d").unwrap();
    assert_eq!(rs.len(), 2);
    assert_eq!(rs[0].0, b"a".to_vec());
    assert_eq!(rs[0].1, b"b".to_vec());
    assert_eq!(rs[1].0, b"c".to_vec());
    assert_eq!(rs[1].1, b"d".to_vec());
}

#[test]
fn test_get_lines_trailing_newline() {
    let rs = Mapping::get_lines(b"a,b\n").unwrap();
    assert_eq!(rs.len(), 1);
}

#[test]
fn test_get_filtered_lines_chain() {
    // pizza has no ingredient record, so Sparky's pizza pair is dropped.
    let (df, fi, fl) = Mapping::get_filtered_lines(
        b"Sparky,burger\nSparky,pizza",
        b"burger,cheese",
        b"cheese,salty",
    )
    .unwrap();
    assert_eq!(df.len(), 1);
    assert_eq!(df[0].0, b"Sparky".to_vec());
    assert_eq!(df[0].1, b"burger".to_vec());
    assert_eq!(fi.len(), 1);
    assert_eq!(fl.len(), 1);
}

#[test]
fn test_maps_from_lines_direct() {
    let pair = |a: &str, b: &str| (a.as_bytes().to_vec(), b.as_bytes().to_vec());
    let df = vec![pair("Sparky", "burger"), pair("Sparky", "burger")];
    let fi = vec![pair("burger", "cheese")];
    let fl = vec![pair("cheese", "salty")];
    let t = Mapping::maps_from_lines(df, fi, fl).unwrap();
    // The repeated pair keeps its multiplicity: that is its sampling weight.
    assert_eq!(t.dog_food, vec![vec![0u16, 0u16]]);
    assert_eq!(t.food_dog, vec![vec![0u16, 0u16]]);
    assert_eq!(t.dog_names, vec![b"Sparky".to_vec()]);
    assert_eq!(t.food_names, vec![b"burger".to_vec()]);
    assert_eq!(t.ingredient_names, vec![b"cheese".to_vec()]);
    assert_eq!(t.flavor_names, vec![b"salty".to_vec()]);
}

#[test]
fn test_maps_from_lines_unknown_food_reference() {
    let pair = |a: &str, b: &str| (a.as_bytes().to_vec(), b.as_bytes().to_vec());
    // "pizza" is never a right name of the dog-food relation, so its
    // ingredient record cannot be coded.
    let df = vec![pair("Sparky", "burger")];
    let fi = vec![pair("pizza", "cheese")];
    let fl = vec![pair("cheese", "salty")];
    let r = Mapping::maps_from_lines(df, fi, fl);
    assert_eq!(r.err(), Some(dog_food_for_you::Error::UnknownCode));
}
