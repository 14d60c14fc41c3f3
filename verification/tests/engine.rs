// The engine-side helpers: resource sizing, dispatch counts, button states,
// and slider data.

use cogrrs::input::ButtonState;
use cogrrs::resources::{div_ceil, match_buffer_size, match_resolution, BufferSize, TextureRes};
use cogrrs::ui::SliderData;

#[test]
fn div_ceil_exact_values() {
    // Quotient plus remainder, as the dispatch helper computes it.
    assert_eq!(div_ceil(32, 16), 2);
    assert_eq!(div_ceil(33, 16), 2 + 1);
    assert_eq!(div_ceil(10, 16), 10);
    assert_eq!(div_ceil(0, 16), 0);
    assert_eq!(div_ceil(1920, 16), 120);
}

#[test]
fn texture_resolutions() {
    assert_eq!(match_resolution(1920, 1080, &TextureRes::FullRes), (1920, 1080, 1));
    assert_eq!(match_resolution(1920, 1080, &TextureRes::HalfRes), (960, 540, 1));
    assert_eq!(match_resolution(1920, 1080, &TextureRes::QuarterRes), (480, 270, 1));
    assert_eq!(match_resolution(1920, 1080, &TextureRes::EightRes), (240, 135, 1));
    assert_eq!(match_resolution(1920, 1080, &TextureRes::SixteenthRes), (120, 67, 1));
    assert_eq!(match_resolution(1920, 1080, &TextureRes::ThirtySecondRes), (60, 33, 1));
    assert_eq!(match_resolution(1920, 1080, &TextureRes::Custom(12, 34, 5)), (12, 34, 5));
}

#[test]
fn buffer_sizes() {
    assert_eq!(match_buffer_size(1920, 1080, &BufferSize::FullRes, 16), 1920 * 1080 * 16);
    assert_eq!(match_buffer_size(1920, 1080, &BufferSize::HalfRes, 16), 1920 * 1080 * 16 / 2);
    assert_eq!(match_buffer_size(1920, 1080, &BufferSize::QuarterRes, 16), 1920 * 1080 * 16 / 4);
    assert_eq!(match_buffer_size(1920, 1080, &BufferSize::EightRes, 16), 1920 * 1080 * 16 / 8);
    assert_eq!(
        match_buffer_size(1920, 1080, &BufferSize::SixteenthRes, 16),
        1920 * 1080 * 16 / 16
    );
    assert_eq!(
        match_buffer_size(1920, 1080, &BufferSize::ThirtySecondRes, 16),
        1920 * 1080 * 16 / 32
    );
    assert_eq!(match_buffer_size(1920, 1080, &BufferSize::Custom(100), 16), 1600);
}

#[test]
fn button_state_machine() {
    let b = ButtonState::new();
    assert_eq!(b, ButtonState::Up);
    assert!(!b.is_down());
    assert!(ButtonState::Pressed.is_down());
    assert!(ButtonState::Down.is_down());
    assert!(!ButtonState::Released.is_down());
    assert_eq!(ButtonState::Pressed.settle(), ButtonState::Down);
    assert_eq!(ButtonState::Released.settle(), ButtonState::Up);
    assert_eq!(ButtonState::Up.settle(), ButtonState::Up);
    assert_eq!(ButtonState::Down.settle(), ButtonState::Down);
    assert_eq!(ButtonState::default(), ButtonState::Up);
}

#[test]
fn slider_data_holds_its_fields() {
    let s: SliderData<i32> = SliderData::new(-5, 5, 2);
    assert_eq!(s.min, -5);
    assert_eq!(s.max, 5);
    assert_eq!(s.current, 2);
}
