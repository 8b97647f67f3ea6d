use ribir::align::{Align, HAlign, HAlignWidget, VAlign, VAlignWidget};
use ribir::animate::{AnimateTrack, FrameMsg};
use ribir::text::{FontFamily, TextAlign, TextDirection};
use ribir::widget::{EdgeInsets, Kind, Padding, Props, Void, Widget, WidgetHead};

#[test]
fn halign_converts() {
    assert_eq!(Align::from(HAlign::Left), Align::Start);
    assert_eq!(Align::from(HAlign::Center), Align::Center);
    assert_eq!(Align::from(HAlign::Right), Align::End);
    assert_eq!(Align::from(HAlign::Stretch), Align::Stretch);
    assert_eq!(HAlignWidget { h_align: HAlign::Right }.align(), Align::End);
}

#[test]
fn valign_converts() {
    assert_eq!(Align::from(VAlign::Top), Align::Start);
    assert_eq!(Align::from(VAlign::Center), Align::Center);
    assert_eq!(Align::from(VAlign::Bottom), Align::End);
    assert_eq!(Align::from(VAlign::Stretch), Align::Stretch);
    assert_eq!(VAlignWidget { v_align: VAlign::Bottom }.align(), Align::End);
}

#[test]
fn align_defaults() {
    assert_eq!(Align::default(), Align::Start);
    assert_eq!(HAlign::default(), HAlign::Left);
    assert_eq!(VAlign::default(), VAlign::Top);
}

#[test]
fn text_direction_axes() {
    assert!(TextDirection::TopToBottom.is_vertical());
    assert!(TextDirection::BottomToTop.is_vertical());
    assert!(!TextDirection::LeftToRight.is_vertical());
    assert!(TextDirection::LeftToRight.is_horizontal());
    assert!(TextDirection::RightToLeft.is_horizontal());
    assert!(!TextDirection::TopToBottom.is_horizontal());
    assert_ne!(TextAlign::Start, TextAlign::End);
    assert_eq!(FontFamily::Name("Lato".to_string()), FontFamily::Name("Lato".to_string()));
}

#[test]
fn animate_track_counts_running() {
    let mut cnt: u32 = 0;
    let mut a = AnimateTrack::new();
    let mut b = AnimateTrack::new();
    a.set_actived(true, &mut cnt);
    assert_eq!(cnt, 1);
    a.set_actived(true, &mut cnt);
    assert_eq!(cnt, 1);
    b.set_actived(true, &mut cnt);
    assert_eq!(cnt, 2);
    a.set_actived(false, &mut cnt);
    assert_eq!(cnt, 1);
    assert!(!a.actived);
    assert!(b.actived);
    a.release(&mut cnt);
    assert_eq!(cnt, 1);
    b.release(&mut cnt);
    assert_eq!(cnt, 0);
    assert_ne!(FrameMsg::NewFrame(1), FrameMsg::Finish(1));
}

#[test]
fn padding_new_keeps_insets() {
    let insets = EdgeInsets { left: 1, right: 2, top: 3, bottom: 4 };
    let p = Padding::new(insets);
    assert_eq!(p.padding, insets);
    assert_eq!(Void, Void);
}

#[test]
fn void_gives_way_to_its_child() {
    let child = Widget::Render(WidgetHead { key: None, props: Props::Text });
    let w = Void::compose_single_child(Some(child));
    assert!(matches!(w, Widget::Render(WidgetHead { key: None, props: Props::Text })));
    let alone = Void::compose_single_child(None);
    assert_eq!(alone.to_node().kind, Kind::Render);
    assert_eq!(alone.to_node().props, Props::Void(Void));
}
