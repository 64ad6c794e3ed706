use ray_tracing::image::Image;

#[test]
fn empty_fills_every_pixel() {
    let img: Image<u32> = Image::empty(3, 2, 7);
    assert_eq!(img.w, 3);
    assert_eq!(img.h, 2);
    for y in 0..2 {
        for x in 0..3 {
            assert_eq!(img.at(x, y), 7);
        }
    }
}

#[test]
fn index_is_row_major() {
    let img: Image<u8> = Image::empty(4, 3, 0);
    assert_eq!(img.index(0, 0), 0);
    assert_eq!(img.index(3, 0), 3);
    assert_eq!(img.index(0, 1), 4);
    assert_eq!(img.index(2, 2), 10);
}

#[test]
fn set_changes_only_its_pixel() {
    let mut img: Image<i64> = Image::empty(3, 3, 0);
    img.set(1, 2, 42);
    for y in 0..3 {
        for x in 0..3 {
            if (x, y) == (1, 2) {
                assert_eq!(img.at(x, y), 42);
            } else {
                assert_eq!(img.at(x, y), 0);
            }
        }
    }
}

#[test]
fn set_works_with_float_triples() {
    let mut img: Image<[f64; 3]> = Image::empty(2, 2, [0.0, 0.0, 0.0]);
    img.set(0, 1, [0.25, 0.5, 1.0]);
    assert_eq!(img.at(0, 1), [0.25, 0.5, 1.0]);
    assert_eq!(img.at(1, 1), [0.0, 0.0, 0.0]);
}

#[test]
fn lr_mirrors_columns() {
    let mut img: Image<u32> = Image::empty(3, 2, 0);
    let mut v = 0;
    for y in 0..2 {
        for x in 0..3 {
            img.set(x, y, v);
            v += 1;
        }
    }
    img.lr();
    assert_eq!(img.at(0, 0), 2);
    assert_eq!(img.at(1, 0), 1);
    assert_eq!(img.at(2, 0), 0);
    assert_eq!(img.at(0, 1), 5);
    assert_eq!(img.at(1, 1), 4);
    assert_eq!(img.at(2, 1), 3);
}

#[test]
fn ud_mirrors_rows() {
    let mut img: Image<u32> = Image::empty(2, 3, 0);
    let mut v = 0;
    for y in 0..3 {
        for x in 0..2 {
            img.set(x, y, v);
            v += 1;
        }
    }
    img.ud();
    assert_eq!(img.at(0, 0), 4);
    assert_eq!(img.at(1, 0), 5);
    assert_eq!(img.at(0, 1), 2);
    assert_eq!(img.at(1, 1), 3);
    assert_eq!(img.at(0, 2), 0);
    assert_eq!(img.at(1, 2), 1);
}

#[test]
fn lr_twice_restores_the_image() {
    let mut img: Image<u16> = Image::empty(5, 4, 0);
    let mut v = 0;
    for y in 0..4 {
        for x in 0..5 {
            img.set(x, y, v);
            v += 3;
        }
    }
    let mut snapshot = Vec::new();
    for y in 0..4 {
        for x in 0..5 {
            snapshot.push(img.at(x, y));
        }
    }
    img.lr();
    img.lr();
    let mut k = 0;
    for y in 0..4 {
        for x in 0..5 {
            assert_eq!(img.at(x, y), snapshot[k]);
            k += 1;
        }
    }
}
