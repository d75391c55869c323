use garbage_core::builds::ItemBuild;
use garbage_core::items::GarbageItem;

/// The last line is the bottom layer; items carry (column, layer) grid
/// coordinates, bottom layer first.
#[test]
fn parse_reads_layers_bottom_up() {
    let build = ItemBuild::parse(b"cp\n|I");
    let items = build.items();
    assert_eq!(items.len(), 4);
    assert_eq!(items[0], (GarbageItem::Column, (0, 0)));
    assert_eq!(items[1], (GarbageItem::LargeColumn, (1, 0)));
    assert_eq!(items[2], (GarbageItem::Cube, (0, 1)));
    assert_eq!(items[3], (GarbageItem::Plank, (1, 1)));
}

/// Blanks and unknown characters place nothing but still occupy a column.
#[test]
fn parse_skips_blanks_but_keeps_columns() {
    let build = ItemBuild::parse(b" c\nx o");
    let items = build.items();
    assert_eq!(items.len(), 2);
    assert_eq!(items[0], (GarbageItem::Ball, (2, 0)));
    assert_eq!(items[1], (GarbageItem::Cube, (1, 1)));
}

/// A carriage return belongs to the line break and a final newline closes
/// the last line instead of adding an empty layer.
#[test]
fn parse_handles_line_break_styles() {
    let build = ItemBuild::parse(b"c\r\no");
    let items = build.items();
    assert_eq!(items.len(), 2);
    assert_eq!(items[0], (GarbageItem::Ball, (0, 0)));
    assert_eq!(items[1], (GarbageItem::Cube, (0, 1)));

    let build = ItemBuild::parse(b"c\n");
    let items = build.items();
    assert_eq!(items.len(), 1);
    assert_eq!(items[0], (GarbageItem::Cube, (0, 0)));

    assert_eq!(ItemBuild::parse(b"").items().len(), 0);
}

/// Columns count characters, not bytes: a two-byte character occupies one
/// column.
#[test]
fn parse_counts_characters_not_bytes() {
    let build = ItemBuild::parse("éc".as_bytes());
    let items = build.items();
    assert_eq!(items.len(), 1);
    assert_eq!(items[0], (GarbageItem::Cube, (1, 0)));
}
