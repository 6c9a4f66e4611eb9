use layout::length::Length;
use layout::rect::Rect;
use layout::size::Size;

#[test]
fn size_default_is_to_fill() {
    let minimum = Length::Absolute(0);
    let maximum = Length::Relative(100);
    let preferred = Length::Relative(100);

    let expected_default = Size { minimum, maximum, preferred };

    assert_eq!(expected_default, Default::default());
}

fn check_applicable_sizes() {
    let size = Size {
        preferred: Length::Relative(50),
        minimum: Length::Absolute(20),
        maximum: Length::Absolute(100),
    };
    assert_eq!(size.get_appliable_size(70), 35);
    assert_eq!(size.get_appliable_size(20), 20);
    assert_eq!(size.get_appliable_size(10), 10);
    assert_eq!(size.get_appliable_size(200), 100);
    assert_eq!(size.get_appliable_size(300), 100);

    let size = Size {
        preferred: Length::Absolute(20),
        minimum: Length::Relative(25),
        maximum: Length::Relative(50),
    };
    assert_eq!(size.get_appliable_size(100), 25);
    assert_eq!(size.get_appliable_size(20), 10);
    assert_eq!(size.get_appliable_size(4), 2);

    let size = Size {
        preferred: Length::Absolute(20),
        minimum: Length::Relative(50),
        maximum: Length::Absolute(50),
    };
    assert_eq!(size.get_appliable_size(100), 50);
    assert_eq!(size.get_appliable_size(40), 20);
    assert_eq!(size.get_appliable_size(4), 4);
    assert_eq!(size.get_appliable_size(17), 17);
}

#[test]
fn extend_config_get_applicable_size() {
    check_applicable_sizes();
}

#[test]
fn size_get_applicable_size() {
    check_applicable_sizes();
}

#[test]
fn resolution_of_each_length() {
    assert_eq!(Length::Absolute(5).get_absolute(33, 0), 5);
    assert_eq!(Length::Absolute(50).get_absolute(33, 10), 23);
    assert_eq!(Length::Relative(33).get_absolute(150, 0), 49);
    assert_eq!(Length::Relative(33).get_absolute(150, 140), 10);
    assert_eq!(Length::Relative(500).get_absolute(150, 0), 150);
    assert_eq!(Length::AtLeast(10).get_absolute(33, 5), 28);
    assert_eq!(Length::AtLeast(40).get_absolute(33, 5), 40);
    assert_eq!(Length::AtMost(10).get_absolute(33, 5), 10);
    assert_eq!(Length::AtMost(40).get_absolute(33, 5), 28);
    assert_eq!(Length::Fill.get_absolute(33, 5), 28);
    assert_eq!(Length::Fill.get_absolute(33, 33), 0);
    assert_eq!(Length::Relative(100).get_absolute(65535, 0), 65535);
}

#[test]
fn resolution_stays_within_usable_length() {
    let lengths = [
        Length::Absolute(7),
        Length::Relative(40),
        Length::AtMost(9),
        Length::Fill,
        Length::AtLeast(3),
    ];
    for parent in [0u16, 1, 10, 33, 150] {
        for net in 0..=parent {
            for l in lengths {
                if let Length::AtLeast(v) = l {
                    if v > parent - net {
                        // a minimum above the usable length may run past the parent
                        assert_eq!(l.get_absolute(parent, net), v);
                        continue;
                    }
                }
                assert!(l.get_absolute(parent, net) <= parent - net);
            }
            assert_eq!(Length::Fill.get_absolute(parent, net), parent - net);
        }
    }
}

#[test]
fn make_absolute_replaces_the_constraint() {
    let mut l = Length::Relative(50);
    assert_eq!(l.make_absolute(30, 4), 15);
    assert_eq!(l, Length::Absolute(15));
}

#[test]
fn rect_area() {
    let r = Rect { x: 3, y: 4, height: 33, width: 150 };
    assert_eq!(r.area(), 4950);
    let big = Rect { x: 0, y: 0, height: 65535, width: 65535 };
    assert_eq!(big.area(), 65535u32 * 65535u32);
}
