use flo_talk::class::{TalkCellBlockClasses, TalkClassRegistry};
use flo_talk::context::{grow_size, TalkContext};
use flo_talk::reference::{TalkCell, TalkCellBlock};
use flo_talk::symbol::TalkSymbolRegistry;

#[test]
fn reuse_cell_block_classes_in_different_contexts() {
    let mut shared = TalkCellBlockClasses::new();
    let mut classes = TalkClassRegistry::new();

    let mut context_1 = TalkContext::<i64>::empty();
    let mut context_2 = TalkContext::<i64>::empty();

    let class_1 = context_1.empty_cell_block_class(&mut shared, &mut classes);
    let class_2 = context_2.empty_cell_block_class(&mut shared, &mut classes);
    let class_3 = context_2.empty_cell_block_class(&mut shared, &mut classes);
    let class_4 = context_1.empty_cell_block_class(&mut shared, &mut classes);

    assert!(class_1 == class_2);
    assert!(class_3 == class_4);
}

#[test]
fn allocate_and_release_cell_blocks() {
    let mut context = TalkContext::<i64>::empty();
    let block = context.allocate_cell_block(4);
    assert_eq!(block, TalkCellBlock(1));
    assert_eq!(context.cell_block(block), &vec![None, None, None, None]);

    assert_eq!(context.set_cell(TalkCell(block, 2), Some(42)), None);
    assert_eq!(context.get_cell(TalkCell(block, 2)), &Some(42));
    *context.get_cell_mut(TalkCell(block, 1)) = Some(7);
    assert_eq!(context.cell_block(block), &vec![None, Some(7), Some(42), None]);

    context.retain_cell_block(block);
    assert!(!context.release_cell_block(block));
    assert!(context.release_cell_block(block));
    // The freed block keeps its values until it is allocated again
    assert_eq!(context.cell_block(block), &vec![None, Some(7), Some(42), None]);

    // The freed block is reused, with fresh nil cells
    let again = context.allocate_cell_block(2);
    assert_eq!(again, block);
    assert_eq!(context.cell_block(again), &vec![None, None]);

    let another = context.allocate_cell_block(0);
    assert_eq!(another, TalkCellBlock(2));
}

#[test]
fn resize_keeps_existing_cells() {
    let mut context = TalkContext::<i64>::empty();
    let block = context.allocate_cell_block(2);
    context.set_cell(TalkCell(block, 0), Some(1));
    context.set_cell(TalkCell(block, 1), Some(2));

    context.resize_cell_block(block, 4);
    assert_eq!(context.cell_block(block), &vec![Some(1), Some(2), None, None]);

    context.resize_cell_block(block, 1);
    assert_eq!(context.cell_block(block), &vec![Some(1)]);
}

#[test]
fn grow_sizes_double() {
    assert_eq!(grow_size(0, 0), 128);
    assert_eq!(grow_size(0, 200), 256);
    assert_eq!(grow_size(128, 127), 128);
    assert_eq!(grow_size(128, 128), 256);
    assert_eq!(grow_size(3, 20), 24);
}

#[test]
fn root_symbol_values() {
    let mut symbols = TalkSymbolRegistry::new();
    let x = symbols.symbol_for("x");
    let y = symbols.symbol_for("y");

    let mut context = TalkContext::<String>::empty();
    assert_eq!(context.set_root_symbol_value(x, Some("one".to_string())), None);
    assert_eq!(context.set_root_symbol_value(y, Some("two".to_string())), None);
    assert_eq!(context.set_root_symbol_value(x, Some("three".to_string())), Some("one".to_string()));

    let root = context.root_symbol_table();
    let x_cell = root.symbol(x).unwrap();
    let y_cell = root.symbol(y).unwrap();
    assert_eq!(x_cell.frame, 0);
    assert_eq!(x_cell.cell, 0);
    assert_eq!(y_cell.cell, 1);
    assert_eq!(root.len(), 2);

    let block = context.root_symbol_table_cell_block();
    assert_eq!(block, TalkCellBlock(0));
    // The empty root block grew to 128 cells
    assert_eq!(context.cell_block(block).len(), 128);
    assert_eq!(context.get_cell(TalkCell(block, 0)), &Some("three".to_string()));
    assert_eq!(context.get_cell(TalkCell(block, 1)), &Some("two".to_string()));
    assert!(!context.release_cell_block(block));
}

#[test]
fn new_root_symbol_table() {
    let mut symbols = TalkSymbolRegistry::new();
    let x = symbols.symbol_for("x");

    let mut context = TalkContext::<String>::empty();
    context.set_root_symbol_value(x, Some("value".to_string()));
    let old_values = context.create_empty_root_symbol_table();
    assert_eq!(old_values.len(), 128);
    assert_eq!(old_values[0], Some("value".to_string()));

    assert_eq!(context.root_symbol_table().symbol(x), None);
    let block = context.root_symbol_table_cell_block();
    assert_eq!(context.cell_block(block).len(), 128);
    assert_eq!(context.get_cell(TalkCell(block, 0)), &None);
}

#[test]
fn releases_undo_several_retains() {
    let mut context = TalkContext::<i64>::empty();
    let block = context.allocate_cell_block(2);
    context.set_cell(TalkCell(block, 0), Some(5));
    for _ in 0..3 {
        context.retain_cell_block(block);
    }
    for _ in 0..3 {
        assert!(!context.release_cell_block(block));
        assert_eq!(context.get_cell(TalkCell(block, 0)), &Some(5));
    }
    assert!(context.release_cell_block(block));
    assert_eq!(context.allocate_cell_block(1), block);
}
