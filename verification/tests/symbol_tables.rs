use flo_talk::reference::TalkFrameCell;
use flo_talk::symbol::TalkSymbolRegistry;
use flo_talk::symbol_table::TalkSymbolTable;

use std::sync::Arc;

#[test]
fn define_and_look_up_symbols() {
    let mut registry = TalkSymbolRegistry::new();
    let x = registry.symbol_for("x");
    let y = registry.symbol_for("y");

    let mut table = TalkSymbolTable::empty();
    assert_eq!(table.len(), 0);
    assert_eq!(table.symbol(x), None);

    assert_eq!(table.define_symbol(x), TalkFrameCell { frame: 0, cell: 0 });
    assert_eq!(table.define_symbol(y), TalkFrameCell { frame: 0, cell: 1 });
    assert_eq!(table.len(), 2);
    assert_eq!(table.symbol(x), Some(TalkFrameCell { frame: 0, cell: 0 }));
    assert_eq!(table.symbol(y), Some(TalkFrameCell { frame: 0, cell: 1 }));
}

#[test]
fn redefining_a_symbol_allocates_a_new_cell() {
    let mut registry = TalkSymbolRegistry::new();
    let x = registry.symbol_for("x");

    let mut table = TalkSymbolTable::empty();
    table.define_symbol(x);
    assert_eq!(table.define_symbol(x), TalkFrameCell { frame: 0, cell: 1 });
    assert_eq!(table.symbol(x), Some(TalkFrameCell { frame: 0, cell: 1 }));
    assert_eq!(table.len(), 2);
}

#[test]
fn parent_frames_are_counted() {
    let mut registry = TalkSymbolRegistry::new();
    let x = registry.symbol_for("x");
    let y = registry.symbol_for("y");
    let z = registry.symbol_for("z");

    let mut grandparent = TalkSymbolTable::empty();
    grandparent.define_symbol(z);
    grandparent.define_symbol(x);

    let mut parent = TalkSymbolTable::with_parent_frame(Arc::new(grandparent));
    parent.define_symbol(y);

    let mut child = TalkSymbolTable::with_parent_frame(Arc::new(parent));
    child.define_symbol(z);

    assert_eq!(child.symbol(z), Some(TalkFrameCell { frame: 0, cell: 0 }));
    assert_eq!(child.symbol(y), Some(TalkFrameCell { frame: 1, cell: 0 }));
    assert_eq!(child.symbol(x), Some(TalkFrameCell { frame: 2, cell: 1 }));

    let w = registry.symbol_for("w");
    assert_eq!(child.symbol(w), None);
}

#[test]
fn undefining_reveals_parent_binding() {
    let mut registry = TalkSymbolRegistry::new();
    let x = registry.symbol_for("x");

    let mut parent = TalkSymbolTable::empty();
    parent.define_symbol(x);
    let mut child = TalkSymbolTable::with_parent_frame(Arc::new(parent));
    child.define_symbol(x);
    assert_eq!(child.symbol(x), Some(TalkFrameCell { frame: 0, cell: 0 }));

    child.undefine_symbol(x);
    assert_eq!(child.symbol(x), Some(TalkFrameCell { frame: 1, cell: 0 }));
    // The cell is not reused
    assert_eq!(child.len(), 1);
}

#[test]
fn aliases_share_cells() {
    let mut registry = TalkSymbolRegistry::new();
    let x = registry.symbol_for("x");
    let y = registry.symbol_for("y");

    let mut table = TalkSymbolTable::empty();
    table.define_symbol(x);
    table.alias_symbol(y, 0);
    assert_eq!(table.symbol(y), Some(TalkFrameCell { frame: 0, cell: 0 }));
    assert_eq!(table.len(), 1);
}

#[test]
fn set_parent_frame_replaces_parent() {
    let mut registry = TalkSymbolRegistry::new();
    let x = registry.symbol_for("x");
    let y = registry.symbol_for("y");

    let mut first = TalkSymbolTable::empty();
    first.define_symbol(x);
    let mut second = TalkSymbolTable::empty();
    second.define_symbol(y);
    second.define_symbol(x);

    let mut child = TalkSymbolTable::with_parent_frame(Arc::new(first));
    assert_eq!(child.symbol(x), Some(TalkFrameCell { frame: 1, cell: 0 }));
    child.set_parent_frame(Arc::new(second));
    assert_eq!(child.symbol(x), Some(TalkFrameCell { frame: 1, cell: 1 }));

    let copy = child.clone();
    assert_eq!(copy.symbol(y), Some(TalkFrameCell { frame: 1, cell: 0 }));
}
