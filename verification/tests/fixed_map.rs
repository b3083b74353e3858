use dloc::fixed_map::{EnumKey, FixedMap};

#[derive(Clone, Copy, Debug, PartialEq)]
enum Key {
    One,
    Two,
    Three,
    Four,
    Five,
}

impl EnumKey for Key {
    fn count() -> usize {
        5
    }

    fn code(self) -> usize {
        match self {
            Key::One => 0,
            Key::Two => 1,
            Key::Three => 2,
            Key::Four => 3,
            Key::Five => 4,
        }
    }

    fn from_code(code: usize) -> Key {
        match code {
            0 => Key::One,
            1 => Key::Two,
            2 => Key::Three,
            3 => Key::Four,
            _ => Key::Five,
        }
    }
}

fn map() -> FixedMap<5, Key, i32> {
    FixedMap::from_vec(vec![1, 2, 3, 4, 5]).unwrap()
}

#[test]
fn get_key() {
    let map = map();
    assert_eq!(1, *map.get(Key::One));
    assert_eq!(3, *map.get(Key::Three));
    assert_eq!(5, *map.get(Key::Five));
}

#[test]
fn update_value() {
    let mut map = map();
    assert_eq!(1, *map.get(Key::One));
    *map.get_mut(Key::One) = 10;
    assert_eq!(10, *map.get(Key::One));
}

#[test]
fn iter() {
    let mut it = map().iter().into_iter();

    assert_eq!(Some((Key::One, 1)), it.next());
    assert_eq!(Some((Key::Two, 2)), it.next());
    assert_eq!(Some((Key::Three, 3)), it.next());
    assert_eq!(Some((Key::Four, 4)), it.next());
    assert_eq!(Some((Key::Five, 5)), it.next());
    assert_eq!(None, it.next());

    assert_eq!(15, map().iter().into_iter().map(|(_, v)| v).sum::<i32>());
}

#[test]
fn from_vec_needs_exact_length() {
    assert!(FixedMap::<5, Key, i32>::from_vec(vec![1, 2, 3]).is_none());
    let m = FixedMap::<5, Key, i32>::from_vec(vec![0; 5]).unwrap();
    assert_eq!(5, m.len());
}
