use mystd::collections::Vec;
use mystd::test::{test_repeated, DropTest};

#[test]
fn push_pop() {
    test_repeated("Vec::push_pop", 100, |_| {
        let mut vec = Vec::new();
        assert_eq!(vec.length(), 0);
        assert_eq!(vec.capacity(), 0);

        vec.push(42);
        assert_eq!(vec.capacity(), 1);

        vec.push(43);
        vec.push(44);
        assert_eq!(vec.length(), 3);
        assert_eq!(vec.capacity(), 4);

        assert_eq!(vec.pop(), Some(44));
        assert_eq!(vec.pop(), Some(43));
        assert_eq!(vec.length(), 1);

        assert_eq!(vec.pop(), Some(42));
        assert_eq!(vec.length(), 0);
        assert_eq!(vec.capacity(), 4);

        assert_eq!(vec.pop(), None);
    });
}

#[test]
fn drop() {
    test_repeated("Vec::drop", 100, |_| {
        let (indicator, droptest) = DropTest::new();

        {
            let mut vec = Vec::new();
            vec.push(droptest);

            assert!(indicator.is_alive());
        }

        assert!(!indicator.is_alive());
    });
}

#[test]
fn push_pop_largeamount() {
    test_repeated("push_pop_largeamount", 10, |_| {
        const NUM_ELEMENTS: usize = 1000;

        let mut vec = Vec::new();

        let mut test_vec = std::vec::Vec::new();

        for i in 0..NUM_ELEMENTS {
            vec.push(i);
            test_vec.push(i);
        }

        assert_eq!(vec.length(), NUM_ELEMENTS);
        assert_eq!(test_vec.len(), vec.length());

        for i in 0..NUM_ELEMENTS {
            let res = vec.pop();
            let test_res = test_vec.pop();
            assert_eq!(res, test_res);
            assert_eq!(res, Some(NUM_ELEMENTS - i - 1));
        }

        assert_eq!(vec.pop(), None);
        assert_eq!(test_vec.pop(), None);
    });
}

#[test]
fn capacity_doubles() {
    let mut vec = Vec::new();
    let mut seen = std::vec::Vec::new();
    for i in 0..9u8 {
        vec.push(i);
        seen.push(vec.capacity());
    }
    assert_eq!(seen, vec![1, 2, 4, 4, 8, 8, 8, 8, 16]);
}

#[test]
fn test_repeated_collects_in_order() {
    let r = test_repeated("squares", 5, |i| i * i);
    assert_eq!(r, vec![0, 1, 4, 9, 16]);
}
