use vellum::annotate::{Annotator, Point, Tool};
use vellum::geom::Rect;
use vellum::gray::{Gray, Rgb8};
use vellum::morph::{close, morph};
use vellum::ocr::drop_cjk_spaces;
use vellum::panel::{fallback_models_from_text, fallback_models_to_text};
use vellum::prep::{fits, orient_background_light};
use vellum::readout::group_digits;
use vellum::screencopy::{FLAG_Y_INVERT, FORMAT_ARGB8888, decode_shm};
use vellum::selector::Selector;
use vellum::tone::{invert, robust_range};

#[test]
fn despacing_twice_is_despacing_once() {
    for line in ["中 文 a  b 中", " 中\t 文\u{3000}字 ", "a 中 b", "カ タ 가 나 x", ""] {
        let once = drop_cjk_spaces(line);
        assert_eq!(drop_cjk_spaces(&once), once);
    }
    assert_eq!(drop_cjk_spaces("中 文 a  b 中"), "中文 a  b 中");
}

fn copy(gray: &Gray) -> Gray {
    Gray { width: gray.width, height: gray.height, data: gray.data.clone() }
}

#[test]
fn a_light_background_stays_light() {
    let mut gray = Gray { width: 3, height: 3, data: vec![10, 20, 30, 200, 90, 10, 10, 10, 255] };
    orient_background_light(&mut gray);
    assert_eq!(gray.data[0], 245);
    let once = copy(&gray);
    orient_background_light(&mut gray);
    assert_eq!(gray.data, once.data);
}

#[test]
fn a_border_that_is_half_dark_is_turned_over_each_time() {
    let mut gray = Gray { width: 2, height: 1, data: vec![0, 255] };
    orient_background_light(&mut gray);
    assert_eq!(gray.data, vec![255, 0]);
    orient_background_light(&mut gray);
    assert_eq!(gray.data, vec![0, 255]);
}

#[test]
fn a_closing_darkens_nothing() {
    let data: Vec<u8> = (0..64u32).map(|i| (i * 37 % 251) as u8).collect();
    let gray = Gray { width: 8, height: 8, data };
    let closed = close(&gray, 3);
    assert!(gray.data.iter().zip(&closed.data).all(|(a, b)| a <= b));
}

#[test]
fn a_list_survives_its_text() {
    let list = vec!["a b".to_string(), "c".into(), "模型".into()];
    assert_eq!(fallback_models_from_text(&fallback_models_to_text(&list)), list);
}

#[test]
fn grouped_digits_are_the_digits() {
    for value in [0, 7, 999, 1000, 65_535, 1_000_000, 123_456_789] {
        assert_eq!(group_digits(value).replace(',', ""), value.to_string());
    }
}

#[test]
fn a_frame_turned_twice_is_the_frame() {
    let payload: Vec<u8> = (0..24).collect();
    let turned = decode_shm(&payload, 2, 3, 8, FORMAT_ARGB8888, FLAG_Y_INVERT).unwrap();
    let plain = decode_shm(&payload, 2, 3, 8, FORMAT_ARGB8888, 0).unwrap();
    let rows = |image: &Rgb8| -> Vec<Vec<u8>> {
        image.data.chunks(6).map(<[u8]>::to_vec).collect()
    };
    let mut back = rows(&turned);
    back.reverse();
    assert_eq!(back, rows(&plain));
}

#[test]
fn moving_never_resizes() {
    let mut s = Selector::new(640, 480);
    let at = |x: i32, y: i32| Point { x: x * 1000, y: y * 1000 };
    s.press(at(100, 100));
    s.motion(at(200, 180));
    s.release();
    s.press(at(150, 140));
    for (x, y) in [(0, 0), (639, 479), (320, 2000), (-900, 10)] {
        s.motion(at(x, y));
        assert_eq!((s.rect.w, s.rect.h), (100, 80));
        assert!(s.rect.x >= 0 && s.rect.y >= 0 && s.rect.x <= 540 && s.rect.y <= 400);
    }
    assert_eq!(Selector::new(1, 1).rect, Rect::new(0, 0, 0, 0));
}

#[test]
fn a_finished_text_can_be_taken_back() {
    let mut a = Annotator::new();
    a.set_tool(Tool::Text);
    a.press(Point { x: 1000, y: 1000 });
    a.type_str("x");
    assert!(a.commit_text());
    assert!(a.undo());
    assert!(a.strokes.is_empty() && !a.has_content());
    assert!(!a.undo());
}

#[test]
fn colours_can_be_picked() {
    let mut a = Annotator::new();
    a.set_color_index(3);
    assert_eq!(a.color_index(), 3);
    a.press(Point { x: 0, y: 0 });
    a.motion(Point { x: 9000, y: 9000 });
    a.release(Point { x: 9000, y: 9000 });
    assert_eq!(a.strokes[0].color, 3);
}

#[test]
fn an_image_that_is_too_large_cannot_be_prepared() {
    assert!(fits(1920, 1080, 3000));
    assert!(fits(0, 0, 0));
    assert!(!fits(70_000, 70_000, 1000));
    assert!(!fits(40_000, 40_000, 2000));
    assert!(!fits(usize::MAX, 1, 1000));
}

#[test]
fn closing_again_changes_nothing() {
    let data: Vec<u8> = (0..144u32).map(|i| (i * 91 % 241) as u8).collect();
    let gray = Gray { width: 12, height: 12, data };
    for size in [1, 3, 5, 9] {
        let once = close(&gray, size);
        assert_eq!(close(&once, size).data, once.data);
        assert!(once.data.iter().max() <= gray.data.iter().max());
    }
}

#[test]
fn the_negative_is_eroded_where_the_image_is_dilated() {
    let data: Vec<u8> = (0..63u32).map(|i| (i * 37 % 251) as u8).collect();
    let gray = Gray { width: 9, height: 7, data };
    let mut turned = copy(&gray);
    invert(&mut turned);
    for size in [1, 2, 5] {
        let mut dilated = morph(&gray, size, true);
        assert!(gray.data.iter().zip(&dilated.data).all(|(a, b)| a <= b));
        invert(&mut dilated);
        let eroded = morph(&turned, size, false);
        assert!(turned.data.iter().zip(&eroded.data).all(|(a, b)| a >= b));
        assert_eq!(eroded.data, dilated.data);
    }
}

#[test]
fn the_range_is_that_of_the_negative_and_of_any_order() {
    let data: Vec<u8> = (0..2500u32).map(|i| (i * i % 199 + 20) as u8).collect();
    let mut gray = Gray { width: 50, height: 50, data };
    let range = robust_range(&gray);
    invert(&mut gray);
    assert_eq!(robust_range(&gray), range);
    gray.data.reverse();
    gray.data.swap(3, 1800);
    assert_eq!(robust_range(&gray), range);
    let small = Gray { width: 3, height: 1, data: vec![40, 10, 90] };
    assert_eq!(robust_range(&small), 80);
}
