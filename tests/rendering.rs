use minesweeper::game::CellVisibility;
use minesweeper::render::cell_color;
use minesweeper::rgb_to_u32;

#[test]
fn packs_channels() {
    assert_eq!(rgb_to_u32(0x12, 0x34, 0x56), 0x0012_3456);
    assert_eq!(rgb_to_u32(255, 255, 255), 0x00ff_ffff);
    assert_eq!(rgb_to_u32(0, 0, 0), 0);
}

#[test]
fn colors_follow_visibility() {
    assert_eq!(cell_color(CellVisibility::Unknown), rgb_to_u32(128, 128, 128));
    assert_eq!(cell_color(CellVisibility::Flagged), 0x00ff_0000);
    assert_eq!(cell_color(CellVisibility::Empty(0)), 0);
    assert_eq!(cell_color(CellVisibility::Empty(3)), rgb_to_u32(80, 127, 255));
    assert_eq!(cell_color(CellVisibility::Empty(8)), 0x00ff_ffff);
}
