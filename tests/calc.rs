use srs2dge::{inherit_offset, inherit_size, BaseOffset, BaseSize, GuiCalc, SelfSize, WidgetLayout};

#[test]
fn base_size_picks_parent_size() {
    let base = WidgetLayout { size: (640, 480), offset: (10, 20) };
    assert_eq!(BaseSize.reduce(&base, (1, 2)), (640, 480));
}

#[test]
fn base_offset_picks_parent_offset() {
    let base = WidgetLayout { size: (640, 480), offset: (10, 20) };
    assert_eq!(BaseOffset.reduce(&base, (1, 2)), (10, 20));
}

#[test]
fn self_size_picks_own_size() {
    let base = WidgetLayout { size: (640, 480), offset: (10, 20) };
    assert_eq!(SelfSize.reduce(&base, (1, 2)), (1, 2));
}

#[test]
fn inherit_rules() {
    assert_eq!(inherit_size(), BaseSize);
    assert_eq!(inherit_offset(), BaseOffset);
    let base = WidgetLayout { size: 3u32, offset: 4u32 };
    assert_eq!(inherit_size().reduce(&base, 0), 3);
    assert_eq!(inherit_offset().reduce(&base, 0), 4);
}
