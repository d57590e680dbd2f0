use remuir::vecmap::VecMap;

#[test]
fn simple_update() {
    let mut us_presidents: VecMap<u8, String> = VecMap::from_slice(&[
        (43, String::from("George W. Bush")),
        (44, String::from("Barack Obama")),
        (45, String::from("Donald Trump")),
        (46, String::from("Joe Biden")),
    ]);
    assert_eq!(None, us_presidents.get(&42));
    us_presidents.update(42, String::from("Bill Clinton"));
    assert_eq!("Bill Clinton", us_presidents.get(&42).unwrap());
}

#[test]
fn first_entry_of_a_repeated_key_wins() {
    let map: VecMap<usize, bool> = VecMap::from_slice(&[(0, true), (5, false), (6, false), (0, false)]);
    assert_eq!(map.get(&0), Some(&true));
    assert_eq!(map.get(&2), None);
}

#[test]
fn update_with_fn_applies_or_adds() {
    let mut map: VecMap<usize, bool> = VecMap::from_slice(&[(0, true), (5, false), (6, false)]);
    map.update_with_fn(0, &false, |b| b ^ true);
    map.update_with_fn(2, &false, |b| b ^ true);
    assert_eq!(map.get(&0), Some(&false));
    assert_eq!(map.get(&2), Some(&true));
    assert_eq!(map.keys(), vec![&0, &5, &6, &2]);
    assert_eq!(map.values(), vec![&false, &false, &false, &true]);
}
