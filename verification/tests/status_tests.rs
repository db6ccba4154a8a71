use bettercurl::status::{status_color, StatusColor};

#[test]
fn status_colors_by_class() {
    assert_eq!(status_color(200), StatusColor::Green);
    assert_eq!(status_color(299), StatusColor::Green);
    assert_eq!(status_color(301), StatusColor::Yellow);
    assert_eq!(status_color(404), StatusColor::Red);
    assert_eq!(status_color(500), StatusColor::BrightRed);
    assert_eq!(status_color(599), StatusColor::BrightRed);
    assert_eq!(status_color(100), StatusColor::White);
    assert_eq!(status_color(600), StatusColor::White);
    assert_eq!(status_color(199), StatusColor::White);
}
